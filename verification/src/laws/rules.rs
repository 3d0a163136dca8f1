//! What filter rules mean: character classes, lines of rules, the order of the
//! rules, and the files that version control leaves behind.

use vstd::prelude::*;

use crate::filter::{
    class_len, class_names, class_size, clear_rule, cvs_patterns, cvs_rules, excludes, file_rules,
    is_clear, line_rules, option_rules, parsed_rule, pattern_line, pattern_line_rules,
    pattern_rules, rule_flags_are_read_back, rule_matches, rule_of, rule_parts, wild_matches, Rule,
    FILTRULE_INCLUDE,
};
use crate::flags::flag_set;
use crate::laws::names::{
    below, command_line_patterns_decide, lemma_first_match, lemma_never_clear, literally_meant,
    one_matches, plain_word_matches_itself, slashless, star_matches_by_ending,
};
use crate::laws::words::{can_be_line, is_tight, lines_are_found_again, with_ends};
use crate::options::Options;
use crate::text::{
    first_index, lemma_index_from, lines_of, texts, trim_back, trim_front, trimmed,
};

verus! {

// ---------------------------------------------------------------------------
// Character classes
// ---------------------------------------------------------------------------

/// Whether bytes stand for themselves in a character class.
pub open spec fn plain_in_class(set: Seq<u8>) -> bool {
    forall|i: int| 0 <= i < set.len() ==> #[trigger] set[i] != ']' as u8 && set[i] != '-' as u8
}

proof fn lemma_class(set: Seq<u8>, rest: Seq<u8>, first: bool, ch: u8)
    requires
        plain_in_class(set),
        set.len() > 0 || !first,
    ensures
        class_len(set + seq![']' as u8] + rest, first) == set.len() + 1,
        class_names(set + seq![']' as u8] + rest, first, ch) == set.contains(ch),
    decreases set.len(),
{
    let s = set + seq![']' as u8] + rest;
    if set.len() == 0 {
        assert(s[0] == ']' as u8);
    } else {
        assert(s[0] == set[0]);
        assert(set[0] != ']' as u8);
        if set.len() > 1 {
            assert(s[1] == set[1]);
            assert(set[1] != '-' as u8);
        } else {
            assert(s[1] == ']' as u8);
        }
        let t = set.skip(1);
        assert(s.skip(1) =~= t + seq![']' as u8] + rest);
        assert forall|i: int| 0 <= i < t.len() implies #[trigger] t[i] != ']' as u8 && t[i]
            != '-' as u8 by {
            assert(set[i + 1] != ']' as u8 && set[i + 1] != '-' as u8);
        }
        lemma_class(t, rest, false, ch);
        assert(set.contains(ch) == (ch == set[0] || t.contains(ch))) by {
            if t.contains(ch) {
                let i = choose|i: int| 0 <= i < t.len() && t[i] == ch;
                assert(set[i + 1] == ch);
            }
            if set.contains(ch) && ch != set[0] {
                let i = choose|i: int| 0 <= i < set.len() && set[i] == ch;
                assert(t[i - 1] == ch);
            }
        }
    }
}

/// A character class matches one of its bytes, and no other; behind an
/// exclamation mark it matches any byte but those.
pub proof fn class_matches_its_bytes(set: Seq<u8>, rest: Seq<u8>, ch: u8, text: Seq<u8>)
    requires
        plain_in_class(set),
        set.len() > 0,
    ensures
        set[0] != '!' as u8 ==> wild_matches(
            seq!['[' as u8] + set + seq![']' as u8] + rest,
            seq![ch] + text,
        ) == (set.contains(ch) && wild_matches(rest, text)),
        wild_matches(seq!['[' as u8, '!' as u8] + set + seq![']' as u8] + rest, seq![ch] + text) == (
        !set.contains(ch) && wild_matches(rest, text)),
{
    lemma_class(set, rest, true, ch);
    let all = seq![ch] + text;
    assert(all.skip(1) =~= text);
    let p = seq!['[' as u8] + set + seq![']' as u8] + rest;
    assert(p[1] == set[0]);
    if set[0] != '!' as u8 {
        assert(p.skip(1) =~= set + seq![']' as u8] + rest);
        assert(p.skip(class_size(p)) =~= rest);
    }
    let q = seq!['[' as u8, '!' as u8] + set + seq![']' as u8] + rest;
    assert(q[1] == '!' as u8);
    assert(q.skip(2) =~= set + seq![']' as u8] + rest);
    assert(q.skip(class_size(q)) =~= rest);
}

/// A range in a character class matches the bytes from its first to its last,
/// both of them too, and no other.
pub proof fn range_matches_what_lies_between(low: u8, high: u8, rest: Seq<u8>, ch: u8, text: Seq<u8>)
    requires
        low != '!' as u8,
        high != ']' as u8,
    ensures
        wild_matches(seq!['[' as u8, low, '-' as u8, high, ']' as u8] + rest, seq![ch] + text) == (
        low <= ch <= high && wild_matches(rest, text)),
{
    let all = seq![ch] + text;
    assert(all.skip(1) =~= text);
    let p = seq!['[' as u8, low, '-' as u8, high, ']' as u8] + rest;
    let s = p.skip(1);
    assert(s[0] == low && s[1] == '-' as u8 && s[2] == high);
    let t = s.skip(3);
    assert(t[0] == ']' as u8);
    assert(class_len(t, false) == 1);
    assert(!class_names(t, false, ch));
    assert(class_len(s, true) == 4);
    assert(p.skip(class_size(p)) =~= rest);
}

// ---------------------------------------------------------------------------
// Lines of rules
// ---------------------------------------------------------------------------

proof fn lemma_prefixed(prefix: Seq<char>, p: Seq<char>)
    requires
        prefix.len() > 0,
        !prefix.contains(' '),
        prefix.len() > 1 ==> prefix[1] != ',',
        crate::text::is_white(prefix[0]) == false,
        p.len() > 0,
        is_tight(p),
    ensures
        ({
            let line = prefix + seq![' '] + p;
            &&& trimmed(line) == line
            &&& rule_parts(line) == (prefix, p)
        }),
{
    let line = prefix + seq![' '] + p;
    assert(line[0] == prefix[0]);
    assert(line.last() == p.last());
    assert(trim_front(line) == line);
    assert(trim_back(line) == line);
    assert(trimmed(p) == p);
    if prefix.len() == 1 {
        assert(line[1] == ' ');
        assert(line.take(1) =~= prefix);
        assert(line.skip(2) =~= p);
    } else {
        assert(prefix.contains(prefix[1]));
        assert(line[1] == prefix[1]);
        lemma_index_from(line, ' ', 0);
        assert(line[prefix.len() as int] == ' ');
        match first_index(line, ' ') {
            Some(i) => {
                if i < prefix.len() {
                    assert(prefix.contains(prefix[i]));
                }
                assert(i == prefix.len());
                assert(line.take(i) =~= prefix);
                assert(line.skip(i + 1) =~= p);
            },
            None => {},
        }
    }
}

/// A minus or the word for it in front of a pattern excludes what it matches,
/// and a plus or the word for it includes that; white space around the line
/// does not matter.
pub proof fn signs_and_words_mean_the_same(p: Seq<char>)
    requires
        p.len() > 0,
        is_tight(p),
    ensures
        parsed_rule("-"@ + seq![' '] + p) == Some(rule_of(p, false)),
        parsed_rule("exclude"@ + seq![' '] + p) == Some(rule_of(p, false)),
        parsed_rule("+"@ + seq![' '] + p) == Some(rule_of(p, true)),
        parsed_rule("include"@ + seq![' '] + p) == Some(rule_of(p, true)),
{
    reveal_strlit("-");
    reveal_strlit("+");
    reveal_strlit("!");
    reveal_strlit("exclude");
    reveal_strlit("include");
    lemma_prefixed("-"@, p);
    lemma_prefixed("+"@, p);
    lemma_prefixed("exclude"@, p);
    lemma_prefixed("include"@, p);
    assert("-"@[0] != "+"@[0]);
    assert("exclude"@[0] != "include"@[0]);
    assert("exclude"@.len() != "+"@.len());
    assert("include"@.len() != "+"@.len());
    assert("include"@.len() != "-"@.len());
    assert("+"@.len() != "exclude"@.len());
    assert(("-"@ + seq![' '] + p)[0] == '-');
    assert(("+"@ + seq![' '] + p)[0] == '+');
    assert(("exclude"@ + seq![' '] + p)[0] == 'e');
    assert(("include"@ + seq![' '] + p)[0] == 'i');
}

/// An exclamation mark alone forgets the rules before it; an empty line and a
/// comment say nothing.
pub proof fn comments_say_nothing(s: Seq<char>, is_include: bool)
    ensures
        parsed_rule(seq!['!']) == Some(clear_rule()),
        parsed_rule(Seq::empty()) is None,
        pattern_line(Seq::empty(), is_include) is None,
        parsed_rule(seq!['#'] + s) is None,
        pattern_line(seq!['#'] + s, is_include) is None,
{
    reveal_strlit("-");
    reveal_strlit("+");
    reveal_strlit("!");
    reveal_strlit("exclude");
    reveal_strlit("include");
    let mark = seq!['!'];
    assert(trimmed(mark) == mark);
    lemma_index_from(mark, ' ', 0);
    assert(rule_parts(mark).0 == mark);
    assert(mark =~= "!"@);
    assert("!"@[0] != "-"@[0] && "!"@[0] != "+"@[0]);
    assert("!"@.len() != "exclude"@.len() && "!"@.len() != "include"@.len());
    let none = Seq::<char>::empty();
    assert(trimmed(none) == none);
    let c = seq!['#'] + s;
    assert(c[0] == '#');
    assert(trim_front(c) == c);
    lemma_trim_keeps_front(c);
}

proof fn lemma_trim_keeps_front(s: Seq<char>)
    requires
        s.len() > 0,
        !crate::text::is_white(s[0]),
    ensures
        trim_back(s).len() > 0,
        trim_back(s)[0] == s[0],
    decreases s.len(),
{
    if s.len() > 1 && crate::text::is_white(s.last()) {
        assert(s.drop_last()[0] == s[0]);
        lemma_trim_keeps_front(s.drop_last());
    }
}

/// A line of a file of patterns is itself the pattern, to include or to
/// exclude as the file does, unless it starts like a rule.
pub proof fn bare_lines_are_patterns(p: Seq<char>, is_include: bool)
    requires
        p.len() > 1,
        !p.contains(' '),
        is_tight(p),
        p[0] != '#',
        p[1] != ',',
        p != "exclude"@,
        p != "include"@,
        p != "merge"@,
        p != "dir-merge"@,
    ensures
        pattern_line(p, is_include) == Some(rule_of(p, is_include)),
{
    reveal_strlit("-");
    reveal_strlit("+");
    reveal_strlit("!");
    reveal_strlit(".");
    reveal_strlit(":");
    assert(trimmed(p) == p);
    assert(p.contains(p[1]));
    lemma_index_from(p, ' ', 0);
    match first_index(p, ' ') {
        Some(i) => {
            assert(p.contains(p[i]));
        },
        None => {},
    }
    assert(rule_parts(p).0 == p);
    assert(p.len() != "-"@.len());
    assert(p.len() != "+"@.len());
    assert(p.len() != "!"@.len());
    assert(p.len() != "."@.len());
    assert(p.len() != ":"@.len());
}

// ---------------------------------------------------------------------------
// The order of the rules
// ---------------------------------------------------------------------------

proof fn lemma_patterns_never_clear(ps: Seq<Seq<char>>, is_include: bool)
    ensures
        forall|i: int|
            0 <= i < ps.len() ==> !is_clear(#[trigger] pattern_rules(ps, is_include)[i]),
{
    assert forall|i: int| 0 <= i < ps.len() implies !is_clear(
        #[trigger] pattern_rules(ps, is_include)[i],
    ) by {
        rule_flags_are_read_back(ps[i], is_include);
    }
}

proof fn lemma_cvs_never_clear()
    ensures
        forall|i: int| 0 <= i < cvs_rules().len() ==> !is_clear(#[trigger] cvs_rules()[i]),
{
    assert forall|i: int| 0 <= i < cvs_rules().len() implies !is_clear(
        #[trigger] cvs_rules()[i],
    ) by {
        rule_flags_are_read_back(cvs_patterns()[i]@, false);
    }
}

/// The rules of the options behind those of `--filter` and of files.
spec fn option_tail(o: Options) -> Seq<Rule> {
    pattern_rules(texts(o.include_patterns@), true) + pattern_rules(texts(o.exclude@), false)
        + if o.cvs_exclude {
        cvs_rules()
    } else {
        Seq::empty()
    }
}

proof fn lemma_tail_never_clear(o: Options)
    ensures
        forall|i: int| 0 <= i < option_tail(o).len() ==> !is_clear(#[trigger] option_tail(o)[i]),
{
    let a = pattern_rules(texts(o.include_patterns@), true);
    let b = pattern_rules(texts(o.exclude@), false);
    lemma_patterns_never_clear(texts(o.include_patterns@), true);
    lemma_patterns_never_clear(texts(o.exclude@), false);
    lemma_cvs_never_clear();
    let t = option_tail(o);
    assert forall|i: int| 0 <= i < t.len() implies !is_clear(#[trigger] t[i]) by {
        if i < a.len() {
            assert(t[i] == a[i]);
        } else if i < a.len() + b.len() {
            assert(t[i] == b[i - a.len()]);
        } else {
            assert(t[i] == cvs_rules()[i - a.len() - b.len()]);
        }
    }
}

proof fn lemma_front_decides(r: Rule, rest: Seq<Rule>, name: Seq<char>, is_dir: bool)
    requires
        !is_clear(r),
        rule_matches(r, name, is_dir),
        forall|i: int| 0 <= i < rest.len() ==> !is_clear(#[trigger] rest[i]),
    ensures
        excludes(seq![r] + rest, name, is_dir) == !flag_set(r.rflags, FILTRULE_INCLUDE),
{
    let all = seq![r] + rest;
    assert forall|i: int| 0 <= i < all.len() implies !is_clear(#[trigger] all[i]) by {
        if i > 0 {
            assert(all[i] == rest[i - 1]);
        }
    }
    lemma_never_clear(all);
    assert(all.skip(0) =~= all);
    lemma_first_match(all, name, is_dir, 0);
}

/// A rule of `--filter` comes before the patterns of the options: where it
/// matches, it decides, whatever they say.
pub proof fn filter_option_comes_first(o: Options, p: Seq<char>, name: Seq<char>, is_dir: bool)
    requires
        o.filter@.len() == 1,
        p.len() > 0,
        is_tight(p),
        rule_matches(rule_of(p, false), name, is_dir),
    ensures
        o.filter@[0]@ == "-"@ + seq![' '] + p ==> excludes(
            option_rules(o, Seq::empty(), Seq::empty()),
            name,
            is_dir,
        ),
        o.filter@[0]@ == "+"@ + seq![' '] + p ==> !excludes(
            option_rules(o, Seq::empty(), Seq::empty()),
            name,
            is_dir,
        ),
{
    signs_and_words_mean_the_same(p);
    rule_flags_are_read_back(p, false);
    rule_flags_are_read_back(p, true);
    crate::laws::names::matching_does_not_depend_on_the_sign(p, name, is_dir);
    lemma_tail_never_clear(o);
    let lines = texts(o.filter@);
    let none = Seq::<Seq<char>>::empty();
    assert(lines.len() == 1 && lines[0] == o.filter@[0]@);
    assert(lines.last() == lines[0]);
    reveal_with_fuel(line_rules, 2);
    assert(lines.drop_last() =~= none);
    if o.filter@[0]@ == "-"@ + seq![' '] + p {
        let r = rule_of(p, false);
        assert(line_rules(lines) =~= seq![r]);
        assert(option_rules(o, Seq::empty(), Seq::empty()) =~= seq![r] + option_tail(o));
        lemma_front_decides(r, option_tail(o), name, is_dir);
    }
    if o.filter@[0]@ == "+"@ + seq![' '] + p {
        let r = rule_of(p, true);
        assert(line_rules(lines) =~= seq![r]);
        assert(option_rules(o, Seq::empty(), Seq::empty()) =~= seq![r] + option_tail(o));
        lemma_front_decides(r, option_tail(o), name, is_dir);
    }
}

/// A file of patterns comes before the patterns of the options: where its one
/// line matches a name, it decides, to include or to exclude as the file does;
/// and a file that includes comes before one that excludes.
pub proof fn files_of_patterns_come_first(o: Options, p: Seq<char>, name: Seq<char>, is_dir: bool)
    requires
        o.filter@.len() == 0,
        p.len() > 1,
        !p.contains(' '),
        is_tight(p),
        can_be_line(p),
        p[0] != '#',
        p[1] != ',',
        p != "exclude"@,
        p != "include"@,
        p != "merge"@,
        p != "dir-merge"@,
        rule_matches(rule_of(p, false), name, is_dir),
    ensures
        ({
            let file = with_ends(seq![p]);
            let none = Seq::<Seq<char>>::empty();
            &&& excludes(option_rules(o, none, seq![file]), name, is_dir)
            &&& !excludes(option_rules(o, seq![file], none), name, is_dir)
            &&& !excludes(option_rules(o, seq![file], seq![file]), name, is_dir)
        }),
{
    let file = with_ends(seq![p]);
    let none = Seq::<Seq<char>>::empty();
    let one = seq![p];
    assert forall|i: int| 0 <= i < one.len() implies can_be_line(#[trigger] one[i]) by {}
    lines_are_found_again(one);
    bare_lines_are_patterns(p, true);
    bare_lines_are_patterns(p, false);
    rule_flags_are_read_back(p, false);
    rule_flags_are_read_back(p, true);
    crate::laws::names::matching_does_not_depend_on_the_sign(p, name, is_dir);
    lemma_tail_never_clear(o);
    let yes = rule_of(p, true);
    let no = rule_of(p, false);
    assert(texts(o.filter@).len() == 0);
    lemma_one_line_file(p, true);
    lemma_one_line_file(p, false);
    let tail = option_tail(o);
    assert(option_rules(o, none, seq![file]) =~= seq![no] + tail);
    assert(option_rules(o, seq![file], none) =~= seq![yes] + tail);
    let more = seq![no] + tail;
    assert(option_rules(o, seq![file], seq![file]) =~= seq![yes] + more);
    assert forall|i: int| 0 <= i < more.len() implies !is_clear(#[trigger] more[i]) by {
        if i > 0 {
            assert(more[i] == tail[i - 1]);
        }
    }
    lemma_front_decides(no, tail, name, is_dir);
    lemma_front_decides(yes, tail, name, is_dir);
    lemma_front_decides(yes, more, name, is_dir);
}

proof fn lemma_one_line_file(p: Seq<char>, is_include: bool)
    requires
        can_be_line(p),
        pattern_line(p, is_include) == Some(rule_of(p, is_include)),
    ensures
        file_rules(seq![with_ends(seq![p])], is_include) == seq![rule_of(p, is_include)],
{
    let one = seq![p];
    let file = with_ends(one);
    let files = seq![file];
    assert forall|i: int| 0 <= i < one.len() implies can_be_line(#[trigger] one[i]) by {}
    lines_are_found_again(one);
    reveal_with_fuel(file_rules, 2);
    reveal_with_fuel(pattern_line_rules, 2);
    assert(one.drop_last() =~= Seq::<Seq<char>>::empty());
    assert(files.drop_last() =~= Seq::<Seq<char>>::empty());
    assert(files.last() == file);
    assert(lines_of(file) == one);
    assert(pattern_line_rules(one, is_include) =~= seq![rule_of(p, is_include)]);
    assert(file_rules(files, is_include) =~= seq![rule_of(p, is_include)]);
}

// ---------------------------------------------------------------------------
// What version control leaves behind
// ---------------------------------------------------------------------------

/// With `-C` alone a name is excluded exactly where one of the patterns for
/// what version control leaves behind matches it.
pub proof fn version_control_patterns_exclude(o: Options, name: Seq<char>, is_dir: bool)
    requires
        o.filter@.len() == 0,
        o.exclude@.len() == 0,
        o.include_patterns@.len() == 0,
        o.cvs_exclude,
    ensures
        excludes(option_rules(o, Seq::empty(), Seq::empty()), name, is_dir) == exists|i: int|
            0 <= i < cvs_patterns().len() && rule_matches(
                rule_of((#[trigger] cvs_patterns()[i])@, false),
                name,
                is_dir,
            ),
{
    let ps = Seq::new(cvs_patterns().len(), |i: int| cvs_patterns()[i]@);
    let none = Seq::<Seq<char>>::empty();
    assert(pattern_rules(ps, false) =~= cvs_rules());
    assert(texts(o.filter@).len() == 0);
    assert(texts(o.include_patterns@) =~= none);
    assert(texts(o.exclude@) =~= none);
    assert(pattern_rules(none, true) =~= Seq::<Rule>::empty());
    assert(pattern_rules(none, false) =~= Seq::<Rule>::empty());
    assert(option_rules(o, Seq::empty(), Seq::empty()) =~= pattern_rules(none, true)
        + pattern_rules(ps, false));
    command_line_patterns_decide(none, ps, name, is_dir);
    if one_matches(ps, name, is_dir) {
        let i = choose|i: int|
            0 <= i < ps.len() && rule_matches(rule_of(#[trigger] ps[i], false), name, is_dir);
        assert(ps[i] == cvs_patterns()[i]@);
    }
    if exists|i: int|
        0 <= i < cvs_patterns().len() && rule_matches(
            rule_of((#[trigger] cvs_patterns()[i])@, false),
            name,
            is_dir,
        ) {
        let i = choose|i: int|
            0 <= i < cvs_patterns().len() && rule_matches(
                rule_of((#[trigger] cvs_patterns()[i])@, false),
                name,
                is_dir,
            );
        assert(ps[i] == cvs_patterns()[i]@);
    }
}

proof fn lemma_cvs_ending(k: int, ending: Seq<char>, stem: Seq<char>, o: Options, dir: Seq<char>)
    requires
        0 <= k < cvs_patterns().len(),
        cvs_patterns()[k]@ == seq!['*'] + ending,
        literally_meant(ending),
        slashless(ending),
        ending.len() > 0,
        slashless(stem),
        o.filter@.len() == 0,
        o.exclude@.len() == 0,
        o.include_patterns@.len() == 0,
        o.cvs_exclude,
    ensures
        excludes(option_rules(o, Seq::empty(), Seq::empty()), below(dir, stem + ending), false),
{
    let name = stem + ending;
    assert(slashless(name)) by {
        assert forall|i: int| 0 <= i < name.len() implies #[trigger] name[i] != '/' by {
            if i < stem.len() {
                assert(stem[i] != '/');
            } else {
                assert(ending[i - stem.len()] != '/');
            }
        }
    }
    star_matches_by_ending(ending, false, dir, name, false);
    crate::text::lemma_encode_concat(stem, ending);
    let a = vstd::utf8::encode_utf8(stem);
    let b = vstd::utf8::encode_utf8(ending);
    assert(b.is_suffix_of(a + b)) by {
        assert((a + b).subrange((a + b).len() - b.len(), (a + b).len() as int) =~= b);
    }
    version_control_patterns_exclude(o, below(dir, name), false);
}

/// With `-C` object files, libraries and backup copies are excluded, in
/// whatever directory.
pub proof fn objects_and_backups_are_left_behind(o: Options, stem: Seq<char>, dir: Seq<char>)
    requires
        slashless(stem),
        o.filter@.len() == 0,
        o.exclude@.len() == 0,
        o.include_patterns@.len() == 0,
        o.cvs_exclude,
    ensures
        ({
            let rules = option_rules(o, Seq::empty(), Seq::empty());
            &&& excludes(rules, below(dir, stem + ".o"@), false)
            &&& excludes(rules, below(dir, stem + ".a"@), false)
            &&& excludes(rules, below(dir, stem + ".so"@), false)
            &&& excludes(rules, below(dir, stem + ".bak"@), false)
            &&& excludes(rules, below(dir, stem + ".orig"@), false)
            &&& excludes(rules, below(dir, stem + "~"@), false)
        }),
{
    reveal_strlit("*~");
    reveal_strlit("~");
    reveal_strlit("*.bak");
    reveal_strlit(".bak");
    reveal_strlit("*.orig");
    reveal_strlit(".orig");
    reveal_strlit("*.a");
    reveal_strlit(".a");
    reveal_strlit("*.o");
    reveal_strlit(".o");
    reveal_strlit("*.so");
    reveal_strlit(".so");
    assert("*~"@ =~= seq!['*'] + "~"@);
    assert("*.bak"@ =~= seq!['*'] + ".bak"@);
    assert("*.orig"@ =~= seq!['*'] + ".orig"@);
    assert("*.a"@ =~= seq!['*'] + ".a"@);
    assert("*.o"@ =~= seq!['*'] + ".o"@);
    assert("*.so"@ =~= seq!['*'] + ".so"@);
    lemma_cvs_ending(10, "~"@, stem, o, dir);
    lemma_cvs_ending(17, ".bak"@, stem, o, dir);
    lemma_cvs_ending(19, ".orig"@, stem, o, dir);
    lemma_cvs_ending(22, ".a"@, stem, o, dir);
    lemma_cvs_ending(24, ".o"@, stem, o, dir);
    lemma_cvs_ending(26, ".so"@, stem, o, dir);
}

/// With `-C` the directories of version control are excluded, wherever they
/// are.
pub proof fn version_control_is_left_behind(o: Options, dir: Seq<char>)
    requires
        o.filter@.len() == 0,
        o.exclude@.len() == 0,
        o.include_patterns@.len() == 0,
        o.cvs_exclude,
    ensures
        ({
            let rules = option_rules(o, Seq::empty(), Seq::empty());
            &&& excludes(rules, below(dir, "RCS"@), true)
            &&& excludes(rules, below(dir, "SCCS"@), true)
            &&& excludes(rules, below(dir, "CVS"@), true)
        }),
{
    reveal_strlit("RCS");
    reveal_strlit("SCCS");
    reveal_strlit("CVS");
    assert(cvs_patterns()[0]@ == "RCS"@);
    assert(cvs_patterns()[1]@ == "SCCS"@);
    assert(cvs_patterns()[2]@ == "CVS"@);
    plain_word_matches_itself("RCS"@, false, dir, "RCS"@, true);
    plain_word_matches_itself("SCCS"@, false, dir, "SCCS"@, true);
    plain_word_matches_itself("CVS"@, false, dir, "CVS"@, true);
    version_control_patterns_exclude(o, below(dir, "RCS"@), true);
    version_control_patterns_exclude(o, below(dir, "SCCS"@), true);
    version_control_patterns_exclude(o, below(dir, "CVS"@), true);
}

} // verus!
