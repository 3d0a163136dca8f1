//! Which names the filter rules let take part.

use vstd::prelude::*;
use vstd::utf8::encode_utf8;

use crate::filter::{
    clear_point, excludes, first_verdict, has_double_star, has_wildcard, is_clear, last_component,
    option_rules, pattern_body, pattern_rules, plain_before_pattern, rule_flags_are_read_back,
    rule_matches, rule_of, star_before_pattern, starts_with_double_star, wild_matches,
    without_leading_slashes, Rule,
};
use crate::options::Options;
use crate::protocol::types::char_count;
use crate::text::{last_index, lemma_encode_concat, lemma_last_index, texts};

verus! {

// ---------------------------------------------------------------------------
// One rule
// ---------------------------------------------------------------------------

/// Whether a text holds no slash.
pub open spec fn slashless(s: Seq<char>) -> bool {
    forall|i: int| 0 <= i < s.len() ==> #[trigger] s[i] != '/'
}

/// Whether a text holds none of the characters that make a pattern one: it
/// can only be meant as it stands.
pub open spec fn literally_meant(s: Seq<char>) -> bool {
    forall|i: int| 0 <= i < s.len() ==> #[trigger] s[i] != '*' && s[i] != '?' && s[i] != '['
}

/// A name in a directory.
pub open spec fn below(dir: Seq<char>, name: Seq<char>) -> Seq<char> {
    dir + seq!['/'] + name
}

proof fn lemma_no_slashes(s: Seq<char>)
    requires
        slashless(s),
    ensures
        char_count(s, '/') == 0,
        without_leading_slashes(s) == s,
    decreases s.len(),
{
    if s.len() > 0 {
        let t = s.drop_last();
        assert(slashless(t)) by {
            assert forall|i: int| 0 <= i < t.len() implies #[trigger] t[i] != '/' by {
                assert(s[i] != '/');
            }
        }
        lemma_no_slashes(t);
        assert(s[s.len() - 1] != '/');
        assert(s[0] != '/');
    }
}

proof fn lemma_last_component(dir: Seq<char>, name: Seq<char>)
    requires
        slashless(name),
    ensures
        last_component(below(dir, name)) == name,
        last_component(name) == name,
{
    let s = below(dir, name);
    lemma_last_index(s, '/');
    assert(s[dir.len() as int] == '/');
    match last_index(s, '/') {
        Some(i) => {
            if i > dir.len() {
                assert(s[i] == name[i - dir.len() - 1]);
            }
            assert(s.skip(i + 1) =~= name);
        },
        None => {},
    }
    lemma_last_index(name, '/');
}

/// A pattern without a slash, but for one behind it, says the same of a name
/// in any directory as of the name alone.
pub proof fn slashless_pattern_holds_in_any_directory(
    pattern: Seq<char>,
    is_include: bool,
    dir: Seq<char>,
    name: Seq<char>,
    is_dir: bool,
)
    requires
        slashless(pattern) || (pattern.len() > 0 && slashless(pattern.drop_last())),
        slashless(name),
    ensures
        rule_matches(rule_of(pattern, is_include), below(dir, name), is_dir) == rule_matches(
            rule_of(pattern, is_include),
            name,
            is_dir,
        ),
{
    let body = pattern_body(pattern);
    rule_flags_are_read_back(pattern, is_include);
    assert(slashless(body)) by {
        assert forall|i: int| 0 <= i < body.len() implies #[trigger] body[i] != '/' by {
            if slashless(pattern) {
                assert(pattern[i] != '/');
            } else if i < pattern.len() - 1 {
                assert(pattern.drop_last()[i] != '/');
            }
        }
    }
    lemma_no_slashes(body);
    if body.len() > 0 {
        assert(body[0] != '/');
    }
    lemma_last_component(dir, name);
}

/// What a rule matches does not depend on whether it includes or excludes.
pub proof fn matching_does_not_depend_on_the_sign(pattern: Seq<char>, name: Seq<char>, is_dir: bool)
    ensures
        rule_matches(rule_of(pattern, true), name, is_dir) == rule_matches(
            rule_of(pattern, false),
            name,
            is_dir,
        ),
{
    rule_flags_are_read_back(pattern, true);
    rule_flags_are_read_back(pattern, false);
}

/// A slash behind a pattern makes it match directories only, and those that it
/// matches without the slash.
pub proof fn trailing_slash_means_directories(
    pattern: Seq<char>,
    is_include: bool,
    name: Seq<char>,
    is_dir: bool,
)
    requires
        pattern.len() > 0,
        pattern.last() != '/',
    ensures
        !rule_matches(rule_of(pattern.push('/'), is_include), name, false),
        rule_matches(rule_of(pattern.push('/'), is_include), name, true) == rule_matches(
            rule_of(pattern, is_include),
            name,
            true,
        ),
        rule_matches(rule_of(pattern, is_include), name, true) == rule_matches(
            rule_of(pattern, is_include),
            name,
            false,
        ),
{
    let with = pattern.push('/');
    rule_flags_are_read_back(with, is_include);
    rule_flags_are_read_back(pattern, is_include);
    assert(with.drop_last() =~= pattern);
    assert(pattern_body(with) == pattern);
}

proof fn lemma_literal_flags(body: Seq<char>)
    requires
        literally_meant(body),
    ensures
        !has_wildcard(body),
        !has_double_star(body),
        !starts_with_double_star(body),
{
    if body.contains('*') {
        let i = choose|i: int| 0 <= i < body.len() && body[i] == '*';
        assert(body[i] != '*');
    }
    if body.contains('?') {
        let i = choose|i: int| 0 <= i < body.len() && body[i] == '?';
        assert(body[i] != '?');
    }
    if body.contains('[') {
        let i = choose|i: int| 0 <= i < body.len() && body[i] == '[';
        assert(body[i] != '[');
    }
}

/// A plain word matches the names that are that word, in whatever directory,
/// and no others.
pub proof fn plain_word_matches_itself(
    word: Seq<char>,
    is_include: bool,
    dir: Seq<char>,
    name: Seq<char>,
    is_dir: bool,
)
    requires
        literally_meant(word),
        slashless(word),
        slashless(name),
    ensures
        rule_matches(rule_of(word, is_include), name, is_dir) == (name == word),
        rule_matches(rule_of(word, is_include), below(dir, name), is_dir) == (name == word),
{
    rule_flags_are_read_back(word, is_include);
    if word.len() > 0 {
        assert(word[word.len() - 1] != '/');
    }
    assert(pattern_body(word) == word);
    lemma_literal_flags(word);
    lemma_no_slashes(word);
    lemma_last_component(dir, name);
    slashless_pattern_holds_in_any_directory(word, is_include, dir, name, is_dir);
}

proof fn lemma_leading(s: Seq<char>)
    requires
        s.len() == 0 || s[0] != '/',
    ensures
        without_leading_slashes(s) == s,
        without_leading_slashes(seq!['/'] + s) == s,
{
    let t = seq!['/'] + s;
    assert(t.skip(1) =~= s);
    assert(t[0] == '/');
    reveal_with_fuel(without_leading_slashes, 3);
}

/// A slash in front of a plain pattern roots it: it matches the path that it
/// spells out, from the top, and no other.
pub proof fn rooted_pattern_matches_its_path(
    path: Seq<char>,
    is_include: bool,
    name: Seq<char>,
    is_dir: bool,
)
    requires
        literally_meant(path),
        path.len() > 0,
        path[0] != '/',
        path.last() != '/',
    ensures
        rule_matches(rule_of(seq!['/'] + path, is_include), name, is_dir) == (name == path),
{
    let p = seq!['/'] + path;
    rule_flags_are_read_back(p, is_include);
    assert(p.last() == path.last());
    assert(pattern_body(p) == p);
    assert(literally_meant(p)) by {
        assert forall|i: int| 0 <= i < p.len() implies #[trigger] p[i] != '*' && p[i] != '?' && p[i]
            != '[' by {
            if i > 0 {
                assert(p[i] == path[i - 1]);
            }
        }
    }
    lemma_literal_flags(p);
    lemma_leading(path);
}

proof fn lemma_count_positive(s: Seq<char>, k: int)
    requires
        0 <= k < s.len(),
        s[k] == '/',
    ensures
        char_count(s, '/') > 0,
    decreases s.len(),
{
    if k < s.len() - 1 {
        assert(s.drop_last()[k] == '/');
        lemma_count_positive(s.drop_last(), k);
    }
}

proof fn lemma_count_bound(s: Seq<char>)
    ensures
        char_count(s, '/') <= s.len(),
    decreases s.len(),
{
    if s.len() > 0 {
        lemma_count_bound(s.drop_last());
    }
}

/// A plain pattern with a slash inside matches the path that it spells out
/// and no other.
pub proof fn plain_path_matches_itself(
    path: Seq<char>,
    is_include: bool,
    k: int,
    name: Seq<char>,
    is_dir: bool,
)
    requires
        literally_meant(path),
        0 < k < path.len() - 1,
        path[k] == '/',
        path[0] != '/',
        path.last() != '/',
        path.len() <= u32::MAX,
    ensures
        rule_matches(rule_of(path, is_include), name, is_dir) == (name == path),
{
    rule_flags_are_read_back(path, is_include);
    assert(pattern_body(path) == path);
    lemma_literal_flags(path);
    lemma_leading(path);
    lemma_count_positive(path, k);
    lemma_count_bound(path);
}

proof fn lemma_literal_bytes(s: Seq<char>)
    requires
        literally_meant(s),
    ensures
        !encode_utf8(s).contains('*' as u8),
        !encode_utf8(s).contains('?' as u8),
        !encode_utf8(s).contains('[' as u8),
    decreases s.len(),
{
    lemma_bytes_of_others(s, '*');
    lemma_bytes_of_others(s, '?');
    lemma_bytes_of_others(s, '[');
}

proof fn lemma_scalar_bytes(x: char, c: char)
    requires
        c < '\u{80}',
        x != c,
    ensures
        !vstd::utf8::encode_scalar(x as u32).contains(c as u8),
{
    let v = x as u32;
    let f = vstd::utf8::encode_scalar(v);
    assert(v < 0x80 ==> vstd::utf8::leading_byte_width_1(v) == v) by (bit_vector);
    assert(vstd::utf8::leading_byte_width_2(v) >= 0x80 && vstd::utf8::leading_byte_width_3(v) >= 0x80
        && vstd::utf8::leading_byte_width_4(v) >= 0x80 && vstd::utf8::last_continuation_byte(v)
        >= 0x80 && vstd::utf8::second_last_continuation_byte(v) >= 0x80
        && vstd::utf8::third_last_continuation_byte(v) >= 0x80) by (bit_vector);
    if f.contains(c as u8) {
        let i = choose|i: int| 0 <= i < f.len() && f[i] == c as u8;
        assert(f[i] == c as u8);
    }
}

proof fn lemma_bytes_of_others(s: Seq<char>, c: char)
    requires
        c < '\u{80}',
        forall|i: int| 0 <= i < s.len() ==> #[trigger] s[i] != c,
    ensures
        !encode_utf8(s).contains(c as u8),
    decreases s.len(),
{
    let b = encode_utf8(s);
    if s.len() > 0 {
        let t = s.drop_first();
        assert forall|i: int| 0 <= i < t.len() implies #[trigger] t[i] != c by {
            assert(s[i + 1] != c);
        }
        lemma_bytes_of_others(t, c);
        let f = vstd::utf8::encode_scalar(s[0] as u32);
        lemma_scalar_bytes(s[0], c);
        assert(b =~= f + encode_utf8(t));
        if b.contains(c as u8) {
            let i = choose|i: int| 0 <= i < b.len() && b[i] == c as u8;
            if i < f.len() {
                assert(f[i] == c as u8);
                assert(f.contains(c as u8));
            } else {
                assert(encode_utf8(t)[i - f.len()] == c as u8);
                assert(encode_utf8(t).contains(c as u8));
            }
        }
    }
}

proof fn lemma_slashless_bytes(s: Seq<char>)
    requires
        slashless(s),
    ensures
        !encode_utf8(s).contains('/' as u8),
{
    lemma_bytes_of_others(s, '/');
}

/// A star before a plain ending matches the names with that ending, in
/// whatever directory, and no others.
pub proof fn star_matches_by_ending(
    ending: Seq<char>,
    is_include: bool,
    dir: Seq<char>,
    name: Seq<char>,
    is_dir: bool,
)
    requires
        literally_meant(ending),
        slashless(ending),
        ending.len() > 0,
        slashless(name),
    ensures
        rule_matches(rule_of(seq!['*'] + ending, is_include), below(dir, name), is_dir)
            == encode_utf8(ending).is_suffix_of(encode_utf8(name)),
        rule_matches(rule_of(seq!['*'] + ending, is_include), name, is_dir) == encode_utf8(
            ending,
        ).is_suffix_of(encode_utf8(name)),
{
    let p = seq!['*'] + ending;
    let e = encode_utf8(ending);
    let t = encode_utf8(name);
    let r = rule_of(p, is_include);
    rule_flags_are_read_back(p, is_include);
    assert(ending[ending.len() - 1] != '/');
    assert(p.last() == ending.last());
    assert(pattern_body(p) == p);
    assert(slashless(p)) by {
        assert forall|i: int| 0 <= i < p.len() implies #[trigger] p[i] != '/' by {
            if i > 0 {
                assert(p[i] == ending[i - 1]);
            }
        }
    }
    assert(p[0] == '*');
    assert(p.contains('*'));
    lemma_no_slashes(p);
    lemma_last_component(dir, name);
    slashless_pattern_holds_in_any_directory(p, is_include, dir, name, is_dir);
    lemma_encode_concat(seq!['*'], ending);
    vstd::utf8::is_ascii_chars_encode_utf8(seq!['*']);
    assert(encode_utf8(seq!['*']) =~= seq!['*' as u8]);
    lemma_literal_bytes(ending);
    lemma_slashless_bytes(name);
    assert(e.len() > 0) by {
        crate::text::lemma_encode_len(ending);
    }
    assert(e.contains(e[0]));
    star_before_pattern(e, t);
    let none = Seq::<u8>::empty();
    assert(e + none =~= e);
    if e.is_suffix_of(t) {
        let i = t.len() - e.len();
        assert(t.skip(i) =~= e);
        plain_before_pattern(e, none, t.skip(i));
        assert(t.skip(i).skip(e.len() as int) =~= none);
        assert(e =~= t.skip(i).subrange(0, e.len() as int));
        assert(wild_matches(e, t.skip(i)));
        assert(!t.take(i).contains('/' as u8)) by {
            if t.take(i).contains('/' as u8) {
                let j = choose|j: int| 0 <= j < t.take(i).len() && t.take(i)[j] == '/' as u8;
                assert(t[j] == '/' as u8);
            }
        }
    }
    if wild_matches(seq!['*' as u8] + e, t) {
        let i = choose|i: int|
            0 <= i <= t.len() && !t.take(i).contains('/' as u8) && wild_matches(
                e,
                #[trigger] t.skip(i),
            );
        let rest = t.skip(i);
        plain_before_pattern(e, none, rest);
        assert(rest.skip(e.len() as int).len() == 0);
        assert(rest =~= e) by {
            assert(e == rest.subrange(0, e.len() as int));
        }
        assert(e =~= t.subrange(t.len() - e.len(), t.len() as int));
    }
}

// ---------------------------------------------------------------------------
// Lists of rules
// ---------------------------------------------------------------------------

proof fn lemma_clear_alike(rules: Seq<Rule>)
    ensures
        clear_point(rules) <= rules.len(),
    decreases rules.len(),
{
    if rules.len() > 0 && !is_clear(rules.last()) {
        lemma_clear_alike(rules.drop_last());
    }
}

proof fn lemma_verdicts_alike(rules: Seq<Rule>, a: Seq<char>, b: Seq<char>, is_dir: bool)
    requires
        forall|i: int|
            0 <= i < rules.len() ==> rule_matches(#[trigger] rules[i], a, is_dir) == rule_matches(
                rules[i],
                b,
                is_dir,
            ),
    ensures
        first_verdict(rules, a, is_dir) == first_verdict(rules, b, is_dir),
    decreases rules.len(),
{
    if rules.len() > 0 {
        let rest = rules.skip(1);
        assert(rule_matches(rules[0], a, is_dir) == rule_matches(rules[0], b, is_dir));
        assert forall|i: int| 0 <= i < rest.len() implies rule_matches(#[trigger] rest[i], a, is_dir)
            == rule_matches(rest[i], b, is_dir) by {
            assert(rest[i] == rules[i + 1]);
        }
        lemma_verdicts_alike(rest, a, b, is_dir);
    }
}

/// Rules whose patterns hold no slash, but for one behind them, say the same
/// of a name in any directory as of the name alone.
pub proof fn slashless_rules_hold_in_any_directory(
    patterns: Seq<(Seq<char>, bool)>,
    rules: Seq<Rule>,
    dir: Seq<char>,
    name: Seq<char>,
    is_dir: bool,
)
    requires
        slashless(name),
        rules.len() == patterns.len(),
        forall|i: int|
            0 <= i < rules.len() ==> #[trigger] rules[i] == rule_of(patterns[i].0, patterns[i].1)
                && (slashless(patterns[i].0) || (patterns[i].0.len() > 0 && slashless(
                patterns[i].0.drop_last(),
            ))),
    ensures
        excludes(rules, below(dir, name), is_dir) == excludes(rules, name, is_dir),
{
    lemma_clear_alike(rules);
    let live = rules.skip(clear_point(rules) as int);
    assert forall|i: int| 0 <= i < live.len() implies rule_matches(
        #[trigger] live[i],
        below(dir, name),
        is_dir,
    ) == rule_matches(live[i], name, is_dir) by {
        let k = i + clear_point(rules);
        assert(live[i] == rules[k]);
        slashless_pattern_holds_in_any_directory(
            patterns[k].0,
            patterns[k].1,
            dir,
            name,
            is_dir,
        );
    }
    lemma_verdicts_alike(live, below(dir, name), name, is_dir);
}

pub(crate) proof fn lemma_never_clear(rules: Seq<Rule>)
    requires
        forall|i: int| 0 <= i < rules.len() ==> !is_clear(#[trigger] rules[i]),
    ensures
        clear_point(rules) == 0,
    decreases rules.len(),
{
    if rules.len() > 0 {
        let t = rules.drop_last();
        assert(!is_clear(rules[rules.len() - 1]));
        assert forall|i: int| 0 <= i < t.len() implies !is_clear(#[trigger] t[i]) by {
            assert(t[i] == rules[i]);
        }
        lemma_never_clear(t);
    }
}

pub(crate) proof fn lemma_first_match(rules: Seq<Rule>, name: Seq<char>, is_dir: bool, k: int)
    requires
        0 <= k < rules.len(),
        rule_matches(rules[k], name, is_dir),
        forall|i: int| 0 <= i < k ==> !rule_matches(#[trigger] rules[i], name, is_dir),
    ensures
        first_verdict(rules, name, is_dir) == !crate::flags::flag_set(
            rules[k].rflags,
            crate::filter::FILTRULE_INCLUDE,
        ),
    decreases k,
{
    if k > 0 {
        let rest = rules.skip(1);
        assert(!rule_matches(rules[0], name, is_dir));
        assert forall|i: int| 0 <= i < k - 1 implies !rule_matches(#[trigger] rest[i], name, is_dir) by {
            assert(rest[i] == rules[i + 1]);
        }
        lemma_first_match(rest, name, is_dir, k - 1);
    }
}

proof fn lemma_no_match(rules: Seq<Rule>, name: Seq<char>, is_dir: bool)
    requires
        forall|i: int| 0 <= i < rules.len() ==> !rule_matches(#[trigger] rules[i], name, is_dir),
    ensures
        !first_verdict(rules, name, is_dir),
    decreases rules.len(),
{
    if rules.len() > 0 {
        let rest = rules.skip(1);
        assert(!rule_matches(rules[0], name, is_dir));
        assert forall|i: int| 0 <= i < rest.len() implies !rule_matches(
            #[trigger] rest[i],
            name,
            is_dir,
        ) by {
            assert(rest[i] == rules[i + 1]);
        }
        lemma_no_match(rest, name, is_dir);
    }
}

/// Whether one of some patterns matches a name.
pub open spec fn one_matches(ps: Seq<Seq<char>>, name: Seq<char>, is_dir: bool) -> bool {
    exists|i: int| 0 <= i < ps.len() && rule_matches(rule_of(#[trigger] ps[i], false), name, is_dir)
}

/// Of the patterns on the command line, those that include come first: a name
/// is excluded exactly where one that excludes matches it and none that
/// includes does.
pub proof fn command_line_patterns_decide(
    includes: Seq<Seq<char>>,
    excluded: Seq<Seq<char>>,
    name: Seq<char>,
    is_dir: bool,
)
    ensures
        excludes(pattern_rules(includes, true) + pattern_rules(excluded, false), name, is_dir) == (
        one_matches(excluded, name, is_dir) && !one_matches(includes, name, is_dir)),
{
    let a = pattern_rules(includes, true);
    let b = pattern_rules(excluded, false);
    let all = a + b;
    assert forall|i: int| 0 <= i < all.len() implies !is_clear(#[trigger] all[i]) by {
        if i < a.len() {
            rule_flags_are_read_back(includes[i], true);
        } else {
            rule_flags_are_read_back(excluded[i - a.len()], false);
        }
    }
    lemma_never_clear(all);
    assert(all.skip(0) =~= all);
    assert forall|i: int| 0 <= i < includes.len() implies rule_matches(
        rule_of(#[trigger] includes[i], false),
        name,
        is_dir,
    ) == rule_matches(all[i], name, is_dir) by {
        matching_does_not_depend_on_the_sign(includes[i], name, is_dir);
    }
    assert forall|i: int| 0 <= i < excluded.len() implies rule_matches(
        rule_of(#[trigger] excluded[i], false),
        name,
        is_dir,
    ) == rule_matches(all[a.len() + i], name, is_dir) by {}
    if exists|k: int| 0 <= k < all.len() && rule_matches(#[trigger] all[k], name, is_dir) {
        let k = lemma_least(all, name, is_dir);
        lemma_first_match(all, name, is_dir, k);
        if k < a.len() {
            rule_flags_are_read_back(includes[k], true);
            assert(rule_matches(rule_of(includes[k], false), name, is_dir));
        } else {
            let j = k - a.len();
            rule_flags_are_read_back(excluded[j], false);
            assert(rule_matches(rule_of(excluded[j], false), name, is_dir));
            if one_matches(includes, name, is_dir) {
                let i = choose|i: int|
                    0 <= i < includes.len() && rule_matches(
                        rule_of(#[trigger] includes[i], false),
                        name,
                        is_dir,
                    );
                assert(rule_matches(all[i], name, is_dir));
            }
        }
    } else {
        lemma_no_match(all, name, is_dir);
        if one_matches(excluded, name, is_dir) {
            let i = choose|i: int|
                0 <= i < excluded.len() && rule_matches(
                    rule_of(#[trigger] excluded[i], false),
                    name,
                    is_dir,
                );
            assert(rule_matches(all[a.len() + i], name, is_dir));
        }
    }
}

proof fn lemma_least(rules: Seq<Rule>, name: Seq<char>, is_dir: bool) -> (k: int)
    requires
        exists|k: int| 0 <= k < rules.len() && rule_matches(#[trigger] rules[k], name, is_dir),
    ensures
        0 <= k < rules.len(),
        rule_matches(rules[k], name, is_dir),
        forall|i: int| 0 <= i < k ==> !rule_matches(#[trigger] rules[i], name, is_dir),
    decreases rules.len(),
{
    let t = rules.drop_last();
    if exists|k: int| 0 <= k < t.len() && rule_matches(#[trigger] t[k], name, is_dir) {
        let k = lemma_least(t, name, is_dir);
        assert forall|i: int| 0 <= i < k implies !rule_matches(#[trigger] rules[i], name, is_dir) by {
            assert(t[i] == rules[i]);
        }
        k
    } else {
        let k = rules.len() - 1;
        let j = choose|j: int| 0 <= j < rules.len() && rule_matches(#[trigger] rules[j], name, is_dir);
        if j < k {
            assert(t[j] == rules[j]);
        }
        assert forall|i: int| 0 <= i < k implies !rule_matches(#[trigger] rules[i], name, is_dir) by {
            assert(t[i] == rules[i]);
        }
        k
    }
}

/// Without `--filter`, files of patterns and `-C`, the options exclude what
/// their `--exclude` patterns match and their `--include` patterns do not.
pub proof fn options_exclude_what_they_name(o: Options, name: Seq<char>, is_dir: bool)
    requires
        o.filter@.len() == 0,
        !o.cvs_exclude,
    ensures
        excludes(option_rules(o, Seq::empty(), Seq::empty()), name, is_dir) == (one_matches(
            texts(o.exclude@),
            name,
            is_dir,
        ) && !one_matches(texts(o.include_patterns@), name, is_dir)),
{
    let a = pattern_rules(texts(o.include_patterns@), true);
    let b = pattern_rules(texts(o.exclude@), false);
    assert(texts(o.filter@).len() == 0);
    assert(option_rules(o, Seq::empty(), Seq::empty()) =~= a + b);
    command_line_patterns_decide(texts(o.include_patterns@), texts(o.exclude@), name, is_dir);
}

} // verus!
