//! Single characters and words: what is white space, what is lowered, what says
//! yes, what says nothing, and what a slash and a dot mean in a path.

use vstd::prelude::*;

use crate::daemon::{config_step, lower, lower_char, says_yes, Reading};
use crate::laws::words::{can_be_name, is_tight, lemma_all_named, lemma_parts_of, slashed};
use crate::path::{base_name, components, is_front, named_parts, parts};
use crate::text::{first_index, is_white, lemma_index_from, trimmed};

verus! {

// ---------------------------------------------------------------------------
// Characters
// ---------------------------------------------------------------------------

/// Of the characters up to the tilde, blank, tab, line feed, form feed and the
/// two between and the return are white space, and no others.
pub proof fn white_space_of_ascii(c: char)
    requires
        c <= '~',
    ensures
        is_white(c) == (c == ' ' || c == '\t' || c == '\n' || c == '\r' || c == '\u{b}' || c
            == '\u{c}'),
{
}

/// A capital letter is lowered to its small one, and every other character
/// stays.
pub proof fn capitals_are_lowered(c: char)
    ensures
        'A' <= c <= 'Z' ==> 'a' <= lower_char(c) <= 'z' && lower_char(c) as int - 'a' as int == c as int
            - 'A' as int,
        !('A' <= c <= 'Z') ==> lower_char(c) == c,
        lower(seq![c]) == seq![lower_char(c)],
{
    assert(lower(seq![c]) =~= seq![lower_char(c)]);
}

/// Four words say yes, in capitals and small letters, and nothing else does.
pub proof fn four_words_say_yes(s: Seq<char>)
    requires
        is_tight(s),
    ensures
        says_yes(s) == (lower(s) == seq!['y', 'e', 's'] || lower(s) == seq!['t', 'r', 'u', 'e']
            || lower(s) == seq!['1'] || lower(s) == seq!['o', 'n']),
{
    reveal_strlit("yes");
    reveal_strlit("true");
    reveal_strlit("1");
    reveal_strlit("on");
    assert("yes"@ =~= seq!['y', 'e', 's']);
    assert("true"@ =~= seq!['t', 'r', 'u', 'e']);
    assert("1"@ =~= seq!['1']);
    assert("on"@ =~= seq!['o', 'n']);
    assert(trimmed(s) == s);
}

/// An empty line, a comment behind a hash or a semicolon, and a line without an
/// equals sign that opens no section change nothing.
pub proof fn idle_lines_change_nothing(r: Reading, s: Seq<char>)
    requires
        is_tight(s),
    ensures
        config_step(r, Seq::empty()) == Ok::<Reading, Seq<char>>(r),
        s.len() > 0 && (s[0] == '#' || s[0] == ';') ==> config_step(r, s) == Ok::<
            Reading,
            Seq<char>,
        >(r),
        s.len() > 0 && s[0] != '[' && !s.contains('=') ==> config_step(r, s) == Ok::<
            Reading,
            Seq<char>,
        >(r),
{
    let none = Seq::<char>::empty();
    assert(trimmed(none) == none);
    assert(trimmed(s) == s);
    if !s.contains('=') {
        lemma_index_from(s, '=', 0);
        match first_index(s, '=') {
            Some(i) => {
                assert(s.contains(s[i]));
            },
            None => {},
        }
    }
}

// ---------------------------------------------------------------------------
// Paths
// ---------------------------------------------------------------------------

proof fn lemma_named_concat(a: Seq<Seq<char>>, b: Seq<Seq<char>>)
    ensures
        named_parts(a + b) == named_parts(a) + named_parts(b),
    decreases a.len(),
{
    if a.len() == 0 {
        assert(a + b =~= b);
        assert(named_parts(a) + named_parts(b) =~= named_parts(b));
    } else {
        assert((a + b)[0] == a[0]);
        assert((a + b).skip(1) =~= a.skip(1) + b);
        lemma_named_concat(a.skip(1), b);
        assert(named_parts(a + b) =~= named_parts(a) + named_parts(b));
    }
}

/// A dot and an empty part inside a path lead nowhere else: the components are
/// those of the path without it.
pub proof fn dots_lead_nowhere_else(a: Seq<Seq<char>>, dot: Seq<char>, b: Seq<Seq<char>>)
    requires
        a.len() > 0,
        forall|i: int| 0 <= i < a.len() ==> can_be_name(#[trigger] a[i]),
        forall|i: int| 0 <= i < b.len() ==> can_be_name(#[trigger] b[i]),
        dot == seq!['.'] || dot == Seq::<char>::empty(),
    ensures
        components(slashed(a + seq![dot] + b)) == a + b,
{
    reveal_strlit(".");
    assert("."@ =~= seq!['.']);
    let all = a + seq![dot] + b;
    assert forall|i: int| 0 <= i < all.len() implies !(#[trigger] all[i]).contains('/') by {
        if i < a.len() {
            assert(can_be_name(a[i]));
        } else if i > a.len() {
            assert(can_be_name(b[i - a.len() - 1]));
        } else {
            assert(all[i] == dot);
        }
    }
    lemma_parts_of(all);
    lemma_all_named(a);
    lemma_all_named(b);
    let one = seq![dot];
    lemma_named_concat(a + one, b);
    lemma_named_concat(a, one);
    assert(one.skip(1) =~= Seq::<Seq<char>>::empty());
    assert(named_parts(one) =~= Seq::<Seq<char>>::empty()) by {
        reveal_with_fuel(named_parts, 2);
    }
    assert(a + Seq::<Seq<char>>::empty() =~= a);
    assert(named_parts(all) =~= a + b);
    let s = slashed(all);
    assert(can_be_name(a[0]));
    assert(all[0] == a[0]);
    assert(s[0] == a[0][0]);
    assert(a[0].contains(a[0][0]));
    assert(parts(s)[0] == a[0]);
    assert(components(s) =~= a + b);
}

/// A path from the root is another than the same path from nowhere: it starts
/// with the root.
pub proof fn rooted_paths_start_at_the_root(names: Seq<Seq<char>>)
    requires
        names.len() > 0,
        forall|i: int| 0 <= i < names.len() ==> can_be_name(#[trigger] names[i]),
    ensures
        components(seq!['/'] + slashed(names)) == seq![seq!['/']] + names,
{
    reveal_strlit("/");
    assert("/"@ =~= seq!['/']);
    let none = Seq::<char>::empty();
    let all = seq![none] + names;
    assert forall|i: int| 0 <= i < all.len() implies !(#[trigger] all[i]).contains('/') by {
        if i > 0 {
            assert(can_be_name(names[i - 1]));
        } else {
            assert(all[0] == none);
        }
    }
    lemma_parts_of(all);
    assert(all.skip(1) =~= names);
    let s = seq!['/'] + slashed(names);
    assert(slashed(all) =~= none.push('/') + slashed(names));
    assert(none.push('/') =~= seq!['/']);
    assert(slashed(all) =~= s);
    lemma_all_named(names);
    assert(named_parts(all) == named_parts(names));
    assert(s[0] == '/');
    assert(components(s) =~= seq![seq!['/']] + names);
}

/// The last name of a path is its name, unless it is the way up.
pub proof fn last_name_is_the_name(names: Seq<Seq<char>>)
    requires
        names.len() > 0,
        forall|i: int| 0 <= i < names.len() ==> can_be_name(#[trigger] names[i]),
    ensures
        names.last() != seq!['.', '.'] ==> base_name(slashed(names)) == Some(names.last()),
        names.last() == seq!['.', '.'] ==> base_name(slashed(names)) is None,
{
    reveal_strlit("..");
    reveal_strlit("/");
    assert(".."@ =~= seq!['.', '.']);
    crate::laws::words::path_is_taken_apart(names);
    assert(can_be_name(names[names.len() - 1]));
    if names.last() == "/"@ {
        assert(names.last()[0] == '/');
    }
}

/// One path is the beginning of another where its components are the first of
/// the other's, in order.
pub proof fn beginnings_are_the_first_components(a: Seq<Seq<char>>, b: Seq<Seq<char>>, c: Seq<char>)
    ensures
        is_front(a, a + b),
        is_front(a, b) ==> a.len() <= b.len() && b.take(a.len() as int) == a,
        a.len() > b.len() ==> !is_front(a, b),
        a.len() < b.len() && b[a.len() as int] != c ==> !is_front(a.push(c), b),
{
    assert((a + b).take(a.len() as int) =~= a);
    if is_front(a, b) {
        assert(b.take(a.len() as int) =~= a);
    }
    if a.len() < b.len() && b[a.len() as int] != c && is_front(a.push(c), b) {
        let d = a.push(c);
        assert(b.take(d.len() as int) =~= d);
        assert(b.take(d.len() as int)[a.len() as int] == d[a.len() as int]);
    }
}

} // verus!
