//! Texts that are put together are taken apart again.

use vstd::prelude::*;

use crate::path::{components, named_parts, parts};
use crate::text::{
    all_digits, decimal, first_index, is_digit, is_white, lemma_index_from, lines_of, number_of,
    parsed_number, parsed_signed, signed_decimal, trim_back, trim_front, trimmed, without_line_end,
};

verus! {

// ---------------------------------------------------------------------------
// White space
// ---------------------------------------------------------------------------

/// Whether a text has no white space at its ends.
pub open spec fn is_tight(s: Seq<char>) -> bool {
    s.len() == 0 || (!is_white(s[0]) && !is_white(s.last()))
}

/// A text without white space at its ends is left as it is.
pub proof fn tight_text_is_left(s: Seq<char>)
    requires
        is_tight(s),
    ensures
        trimmed(s) == s,
{
}

/// White space around a text goes, however much there is of it, and nothing
/// else.
pub proof fn white_space_around_goes(front: Seq<char>, s: Seq<char>, back: Seq<char>)
    requires
        is_tight(s),
        forall|i: int| 0 <= i < front.len() ==> is_white(#[trigger] front[i]),
        forall|i: int| 0 <= i < back.len() ==> is_white(#[trigger] back[i]),
    ensures
        trimmed(front + s + back) == s,
{
    if s.len() > 0 {
        lemma_front_goes(front, s + back);
        assert(front + s + back =~= front + (s + back));
        assert((s + back)[0] == s[0]);
        lemma_back_goes(s, back);
    } else {
        lemma_all_goes(front + s + back);
        assert(s =~= Seq::<char>::empty());
    }
}

proof fn lemma_front_goes(front: Seq<char>, s: Seq<char>)
    requires
        s.len() > 0,
        !is_white(s[0]),
        forall|i: int| 0 <= i < front.len() ==> is_white(#[trigger] front[i]),
    ensures
        trim_front(front + s) == s,
    decreases front.len(),
{
    let all = front + s;
    if front.len() > 0 {
        assert(is_white(front[0]));
        assert(all[0] == front[0]);
        assert(all.skip(1) =~= front.skip(1) + s);
        assert forall|i: int| 0 <= i < front.skip(1).len() implies is_white(
            #[trigger] front.skip(1)[i],
        ) by {
            assert(is_white(front[i + 1]));
        }
        lemma_front_goes(front.skip(1), s);
    } else {
        assert(all =~= s);
    }
}

proof fn lemma_back_goes(s: Seq<char>, back: Seq<char>)
    requires
        s.len() > 0,
        !is_white(s.last()),
        forall|i: int| 0 <= i < back.len() ==> is_white(#[trigger] back[i]),
    ensures
        trim_back(s + back) == s,
    decreases back.len(),
{
    let all = s + back;
    if back.len() > 0 {
        assert(is_white(back[back.len() - 1]));
        assert(all.last() == back.last());
        assert(all.drop_last() =~= s + back.drop_last());
        assert forall|i: int| 0 <= i < back.drop_last().len() implies is_white(
            #[trigger] back.drop_last()[i],
        ) by {
            assert(is_white(back[i]));
        }
        lemma_back_goes(s, back.drop_last());
    } else {
        assert(all =~= s);
    }
}

proof fn lemma_all_goes(s: Seq<char>)
    requires
        forall|i: int| 0 <= i < s.len() ==> is_white(#[trigger] s[i]),
    ensures
        trimmed(s) == Seq::<char>::empty(),
    decreases s.len(),
{
    if s.len() > 0 {
        assert(is_white(s[0]));
        assert forall|i: int| 0 <= i < s.skip(1).len() implies is_white(#[trigger] s.skip(1)[i]) by {
            assert(is_white(s[i + 1]));
        }
        lemma_all_goes(s.skip(1));
    } else {
        assert(s =~= Seq::<char>::empty());
    }
}

// ---------------------------------------------------------------------------
// Lines
// ---------------------------------------------------------------------------

/// Some lines as a text, each with its end.
pub open spec fn with_ends(lines: Seq<Seq<char>>) -> Seq<char>
    decreases lines.len(),
{
    if lines.len() == 0 {
        Seq::empty()
    } else {
        lines[0].push('\n') + with_ends(lines.skip(1))
    }
}

/// Whether a text can be a line: it holds no line feed, and no carriage return
/// is at its end.
pub open spec fn can_be_line(s: Seq<char>) -> bool {
    !s.contains('\n') && (s.len() == 0 || s.last() != '\r')
}

proof fn lemma_first(a: Seq<char>, c: char, b: Seq<char>)
    requires
        !a.contains(c),
    ensures
        first_index(a.push(c) + b, c) == Some(a.len() as int),
{
    let s = a.push(c) + b;
    lemma_index_from(s, c, 0);
    assert(s[a.len() as int] == c);
    match first_index(s, c) {
        Some(i) => {
            if i < a.len() {
                assert(a[i] == c);
            }
        },
        None => {},
    }
}

/// Lines that are written one below the other are read as those lines.
pub proof fn lines_are_found_again(lines: Seq<Seq<char>>)
    requires
        forall|i: int| 0 <= i < lines.len() ==> can_be_line(#[trigger] lines[i]),
    ensures
        lines_of(with_ends(lines)) == lines,
    decreases lines.len(),
{
    let s = with_ends(lines);
    if lines.len() == 0 {
        assert(lines =~= Seq::<Seq<char>>::empty());
    } else {
        let more = lines.skip(1);
        assert(can_be_line(lines[0]));
        lemma_first(lines[0], '\n', with_ends(more));
        assert(s.take(lines[0].len() as int) =~= lines[0]);
        assert(s.skip(lines[0].len() as int + 1) =~= with_ends(more));
        assert forall|i: int| 0 <= i < more.len() implies can_be_line(#[trigger] more[i]) by {
            assert(can_be_line(lines[i + 1]));
        }
        lines_are_found_again(more);
        assert(seq![lines[0]] + more =~= lines);
    }
}

/// Line feeds and carriage returns behind a line go, and nothing else.
pub proof fn line_ends_go(s: Seq<char>, ends: Seq<char>)
    requires
        s.len() == 0 || (s.last() != '\n' && s.last() != '\r'),
        forall|i: int| 0 <= i < ends.len() ==> #[trigger] ends[i] == '\n' || ends[i] == '\r',
    ensures
        without_line_end(s + ends) == s,
    decreases ends.len(),
{
    let all = s + ends;
    if ends.len() > 0 {
        assert(ends[ends.len() - 1] == '\n' || ends[ends.len() - 1] == '\r');
        assert(all.last() == ends.last());
        assert(all.drop_last() =~= s + ends.drop_last());
        assert forall|i: int| 0 <= i < ends.drop_last().len() implies #[trigger] ends.drop_last()[i]
            == '\n' || ends.drop_last()[i] == '\r' by {
            assert(ends[i] == '\n' || ends[i] == '\r');
        }
        line_ends_go(s, ends.drop_last());
    } else {
        assert(all =~= s);
    }
}

// ---------------------------------------------------------------------------
// Numbers
// ---------------------------------------------------------------------------

proof fn lemma_number_of(n: nat)
    ensures
        number_of(decimal(n)) == n,
        all_digits(decimal(n)),
    decreases n,
{
    reveal_with_fuel(number_of, 2);
    let s = decimal(n);
    if n < 10 {
        assert(s.drop_last() =~= Seq::<char>::empty());
        assert(s.last() as nat - 48 == n);
    } else {
        lemma_number_of(n / 10);
        assert(s.drop_last() =~= decimal(n / 10));
        assert(s.last() as nat - 48 == n % 10);
        assert forall|i: int| 0 <= i < s.len() implies is_digit(#[trigger] s[i]) by {
            if i < s.len() - 1 {
                assert(s[i] == decimal(n / 10)[i]);
            }
        }
    }
}

/// A number that is written in decimal is read back, as long as it is not
/// above the limit; above it nothing is read.
pub proof fn written_number_is_read(n: nat, max: nat)
    ensures
        parsed_number(decimal(n), max) == if n <= max {
            Some(n)
        } else {
            None
        },
        parsed_number(seq!['+'] + decimal(n), max) == parsed_number(decimal(n), max),
{
    lemma_number_of(n);
    assert(is_digit(decimal(n)[0]));
    assert((seq!['+'] + decimal(n)).skip(1) =~= decimal(n));
}

/// A number with a sign is read back.
pub proof fn written_signed_number_is_read(x: i64)
    ensures
        parsed_signed(signed_decimal(x as int)) == Some(x as int),
{
    if x < 0 {
        let n = (-(x as int)) as nat;
        lemma_number_of(n);
        assert(signed_decimal(x as int).skip(1) =~= decimal(n));
    } else {
        lemma_number_of(x as nat);
        assert(is_digit(decimal(x as nat)[0]));
        written_number_is_read(x as nat, i64::MAX as nat);
    }
}

/// A text with a character that is no digit behind its sign is no number.
pub proof fn no_number_without_digits(s: Seq<char>, max: nat, i: int)
    requires
        0 < i < s.len() || (i == 0 && s.len() > 0 && s[0] != '+'),
        !('0' <= s[i] <= '9'),
    ensures
        parsed_number(s, max) is None,
        parsed_number(Seq::empty(), max) is None,
{
    let d = if s[0] == '+' {
        s.skip(1)
    } else {
        s
    };
    if s[0] == '+' {
        assert(d[i - 1] == s[i]);
    } else {
        assert(d[i] == s[i]);
    }
}

// ---------------------------------------------------------------------------
// Paths
// ---------------------------------------------------------------------------

/// Some names with slashes between them.
pub open spec fn slashed(names: Seq<Seq<char>>) -> Seq<char>
    decreases names.len(),
{
    if names.len() == 0 {
        Seq::empty()
    } else if names.len() == 1 {
        names[0]
    } else {
        names[0].push('/') + slashed(names.skip(1))
    }
}

/// Whether a text can name something in a directory.
pub open spec fn can_be_name(s: Seq<char>) -> bool {
    s.len() > 0 && !s.contains('/') && s != "."@
}

pub(crate) proof fn lemma_parts_of(names: Seq<Seq<char>>)
    requires
        names.len() > 0,
        forall|i: int| 0 <= i < names.len() ==> !(#[trigger] names[i]).contains('/'),
    ensures
        parts(slashed(names)) == names,
    decreases names.len(),
{
    let s = slashed(names);
    assert(!names[0].contains('/'));
    if names.len() == 1 {
        lemma_index_from(s, '/', 0);
        match first_index(s, '/') {
            Some(i) => {
                assert(names[0][i] == '/');
            },
            None => {},
        }
        assert(names =~= seq![s]);
    } else {
        let more = names.skip(1);
        assert forall|i: int| 0 <= i < more.len() implies !(#[trigger] more[i]).contains('/') by {
            assert(!names[i + 1].contains('/'));
        }
        lemma_first(names[0], '/', slashed(more));
        assert(s.take(names[0].len() as int) =~= names[0]);
        assert(s.skip(names[0].len() as int + 1) =~= slashed(more));
        lemma_parts_of(more);
        assert(seq![names[0]] + more =~= names);
    }
}

pub(crate) proof fn lemma_all_named(names: Seq<Seq<char>>)
    requires
        forall|i: int| 0 <= i < names.len() ==> can_be_name(#[trigger] names[i]),
    ensures
        named_parts(names) == names,
    decreases names.len(),
{
    if names.len() > 0 {
        let more = names.skip(1);
        assert(can_be_name(names[0]));
        assert forall|i: int| 0 <= i < more.len() implies can_be_name(#[trigger] more[i]) by {
            assert(can_be_name(names[i + 1]));
        }
        lemma_all_named(more);
        assert(seq![names[0]] + more =~= names);
    } else {
        assert(names =~= Seq::<Seq<char>>::empty());
    }
}

/// A path that is put together from names is taken apart into those names.
pub proof fn path_is_taken_apart(names: Seq<Seq<char>>)
    requires
        names.len() > 0,
        forall|i: int| 0 <= i < names.len() ==> can_be_name(#[trigger] names[i]),
    ensures
        components(slashed(names)) == names,
        components(slashed(names).push('/')) == names,
{
    let s = slashed(names);
    assert forall|i: int| 0 <= i < names.len() implies !(#[trigger] names[i]).contains('/') by {
        assert(can_be_name(names[i]));
    }
    lemma_parts_of(names);
    lemma_all_named(names);
    assert(can_be_name(names[0]));
    lemma_starts_with(names);
    assert(s[0] == names[0][0]);
    assert(names[0].contains(names[0][0]));
    assert(components(s) =~= names);
    let none = Seq::<char>::empty();
    let more = names.push(none);
    lemma_slashed_push(names, none);
    assert(slashed(more) =~= s.push('/'));
    assert forall|i: int| 0 <= i < more.len() implies !(#[trigger] more[i]).contains('/') by {
        if i < names.len() {
            assert(more[i] == names[i]);
        }
    }
    lemma_parts_of(more);
    lemma_named_push(names, none);
    assert(more[0] == names[0]);
    assert(s.push('/')[0] == s[0]);
    assert(components(s.push('/')) =~= names);
}

proof fn lemma_starts_with(names: Seq<Seq<char>>)
    requires
        names.len() > 0,
        names[0].len() > 0,
    ensures
        slashed(names).len() > 0,
        slashed(names)[0] == names[0][0],
{
}

proof fn lemma_slashed_push(names: Seq<Seq<char>>, last: Seq<char>)
    requires
        names.len() > 0,
    ensures
        slashed(names.push(last)) == slashed(names).push('/') + last,
    decreases names.len(),
{
    let all = names.push(last);
    assert(all.skip(1) =~= names.skip(1).push(last));
    if names.len() == 1 {
        assert(names.skip(1).push(last) =~= seq![last]);
        assert(slashed(seq![last]) == last);
    } else {
        lemma_slashed_push(names.skip(1), last);
    }
    assert(slashed(all) =~= slashed(names).push('/') + last);
}

proof fn lemma_named_push(names: Seq<Seq<char>>, last: Seq<char>)
    requires
        last.len() == 0,
    ensures
        named_parts(names.push(last)) == named_parts(names),
    decreases names.len(),
{
    let all = names.push(last);
    if names.len() == 0 {
        assert(all.skip(1) =~= names);
        assert(all[0].len() == 0);
    } else {
        assert(all.skip(1) =~= names.skip(1).push(last));
        lemma_named_push(names.skip(1), last);
    }
}

} // verus!
