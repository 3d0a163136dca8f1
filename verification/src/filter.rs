//! Filter rules: which names take part in a transfer.
//!
//! A rule is a pattern with flags.  The rules of a list are tried in order
//! and the first that matches decides; a clear marker makes the rules before
//! it count for nothing.

use vstd::prelude::*;
use vstd::utf8::encode_utf8;

use crate::flags::{flag_set, has_bit, on};
use crate::options::Options;
use crate::protocol::types::{char_count, count_char};
use crate::text::{
    chars_of, cut, find_char, first_index, is_text, is_white, last_index, lemma_index_from,
    lines_of, rfind_char, same_chars, split_lines, string_of, text, texts, trim_back, trim_chars,
    trim_front, trimmed,
};

verus! {

/// The pattern holds a wildcard.
pub const FILTRULE_WILD: u32 = 0x1;

/// The pattern holds `**`.
pub const FILTRULE_WILD2: u32 = 0x2;

/// The pattern starts with `**`.
pub const FILTRULE_WILD2_PREFIX: u32 = 0x4;

/// The pattern ends with `***`.
pub const FILTRULE_WILD3_SUFFIX: u32 = 0x8;

/// The pattern starts with a slash.
pub const FILTRULE_ABS_PATH: u32 = 0x10;

/// The rule includes; without this it excludes.
pub const FILTRULE_INCLUDE: u32 = 0x20;

/// The pattern ends with a slash and matches directories only.
pub const FILTRULE_DIRECTORY: u32 = 0x40;

/// The pattern stands without a prefix.
pub const FILTRULE_NO_PREFIXES: u32 = 0x200;

/// The rule holds on the sending side.
pub const FILTRULE_SENDER_SIDE: u32 = 0x10000;

/// The rule holds on the receiving side.
pub const FILTRULE_RECEIVER_SIDE: u32 = 0x20000;

/// The rule is a clear marker.
pub const FILTRULE_CLEAR_LIST: u32 = 0x40000;

/// The rule does not keep a directory from being deleted.
pub const FILTRULE_PERISHABLE: u32 = 0x80000;

/// A rule.
#[derive(Debug, Clone)]
pub struct FilterRule {
    pub pattern: String,
    pub rflags: u32,
    /// How many slashes the pattern holds.
    pub slash_cnt: u32,
}

/// The rules of a transfer, in order.
#[derive(Debug, Clone, Default)]
pub struct FilterList {
    pub rules: Vec<FilterRule>,
}

/// The model of a rule.
#[verifier::ext_equal]
pub struct Rule {
    pub pattern: Seq<char>,
    pub rflags: u32,
    pub slash_cnt: u32,
}

impl View for FilterRule {
    type V = Rule;

    open spec fn view(&self) -> Rule {
        Rule { pattern: self.pattern@, rflags: self.rflags, slash_cnt: self.slash_cnt }
    }
}

impl View for FilterList {
    type V = Seq<Rule>;

    open spec fn view(&self) -> Seq<Rule> {
        Seq::new(self.rules@.len(), |i: int| self.rules@[i]@)
    }
}

const STAR: u8 = 42;

const SLASH: u8 = 47;

const BRACKET: u8 = 91;

const BRACKET_END: u8 = 93;

const QUESTION: u8 = 63;

const DASH: u8 = 45;

const BANG: u8 = 33;

/// How many stars `pat` starts with.
pub open spec fn star_run(pat: Seq<u8>) -> nat
    decreases pat.len(),
{
    if pat.len() == 0 || pat[0] != '*' as u8 {
        0
    } else {
        1 + star_run(pat.skip(1))
    }
}

/// How many bytes the rest of a character class takes, up to and with its
/// closing bracket.  A bracket that comes first stands for itself.
pub open spec fn class_len(s: Seq<u8>, first: bool) -> nat
    decreases s.len(),
{
    if s.len() == 0 {
        0
    } else if s[0] == ']' as u8 && !first {
        1
    } else if s.len() > 2 && s[1] == '-' as u8 && s[2] != ']' as u8 {
        3 + class_len(s.skip(3), false)
    } else {
        1 + class_len(s.skip(1), false)
    }
}

/// Whether the rest of a character class names the byte `ch`, by itself or in
/// a range.
pub open spec fn class_names(s: Seq<u8>, first: bool, ch: u8) -> bool
    decreases s.len(),
{
    if s.len() == 0 || (s[0] == ']' as u8 && !first) {
        false
    } else if s.len() > 2 && s[1] == '-' as u8 && s[2] != ']' as u8 {
        s[0] <= ch <= s[2] || class_names(s.skip(3), false, ch)
    } else {
        ch == s[0] || class_names(s.skip(1), false, ch)
    }
}

/// Whether a character class is negated.
pub open spec fn class_negated(pat: Seq<u8>) -> bool {
    pat.len() > 1 && pat[1] == '!' as u8
}

/// Where the names of a character class start.
pub open spec fn class_start(pat: Seq<u8>) -> int {
    if class_negated(pat) {
        2
    } else {
        1
    }
}

/// How many bytes the character class takes that `pat` starts with.
pub open spec fn class_size(pat: Seq<u8>) -> int {
    class_start(pat) + class_len(pat.skip(class_start(pat)), true)
}

/// Whether the character class that `pat` starts with holds the byte `ch`.
pub open spec fn class_holds(pat: Seq<u8>, ch: u8) -> bool {
    class_names(pat.skip(class_start(pat)), true, ch) != class_negated(pat)
}

pub proof fn lemma_class_len(s: Seq<u8>, first: bool)
    ensures
        class_len(s, first) <= s.len(),
    decreases s.len(),
{
    if s.len() > 0 && !(s[0] == ']' as u8 && !first) {
        if s.len() > 2 && s[1] == '-' as u8 && s[2] != ']' as u8 {
            lemma_class_len(s.skip(3), false);
        } else {
            lemma_class_len(s.skip(1), false);
        }
    }
}

pub proof fn lemma_star_run(pat: Seq<u8>)
    ensures
        star_run(pat) <= pat.len(),
    decreases pat.len(),
{
    if pat.len() > 0 && pat[0] == '*' as u8 {
        lemma_star_run(pat.skip(1));
    }
}

/// Whether `pat` matches the whole of `text`.
///
/// - `?` matches any byte but a slash,
/// - `*` matches any bytes but slashes,
/// - `**` matches any bytes,
/// - `[..]` matches one byte of a class,
/// - any other byte matches itself.
pub open spec fn wild_matches(pat: Seq<u8>, text: Seq<u8>) -> bool
    decreases pat.len(),
{
    proof {
        lemma_star_run(pat);
        if pat.len() > 0 {
            lemma_class_len(pat.skip(class_start(pat)), true);
        }
    }
    if pat.len() == 0 {
        text.len() == 0
    } else if pat[0] == '*' as u8 {
        exists|i: int|
            0 <= i <= text.len() && (star_run(pat) >= 2 || !text.take(i).contains('/' as u8))
                && wild_matches(pat.skip(star_run(pat) as int), #[trigger] text.skip(i))
    } else if text.len() == 0 {
        false
    } else if pat[0] == '[' as u8 {
        class_holds(pat, text[0]) && wild_matches(pat.skip(class_size(pat)), text.skip(1))
    } else if pat[0] == '?' as u8 {
        text[0] != '/' as u8 && wild_matches(pat.skip(1), text.skip(1))
    } else {
        pat[0] == text[0] && wild_matches(pat.skip(1), text.skip(1))
    }
}

/// Reads the character class that `pat` starts with: whether it holds `ch`,
/// and how many bytes it takes.
fn match_char_class(pat: &[u8], ch: u8) -> (res: (bool, usize))
    requires
        pat@.len() > 0,
    ensures
        res.0 == class_holds(pat@, ch),
        res.1 == class_size(pat@),
        res.1 <= pat@.len(),
{
    let mut i: usize = 1;
    let negate: bool = i < pat.len() && pat[i] == BANG;
    if negate {
        i = i + 1;
    }
    let mut matched: bool = false;
    let mut first: bool = true;
    let ghost names = pat@.skip(i as int);
    let ghost start = i as int;
    while i < pat.len()
        invariant_except_break
            matched || class_names(pat@.skip(i as int), first, ch) == class_names(names, true, ch),
            matched ==> class_names(names, true, ch),
            i - start + class_len(pat@.skip(i as int), first) == class_len(names, true),
        invariant
            start <= i <= pat.len(),
            names == pat@.skip(start),
        ensures
            matched == class_names(names, true, ch),
            i - start == class_len(names, true),
            i <= pat.len(),
        decreases pat@.len() - i,
    {
        let ghost s = pat@.skip(i as int);
        assert(s[0] == pat@[i as int]);
        if pat[i] == BRACKET_END && !first {
            i = i + 1;
            break;
        }
        if pat.len() - i > 2 && pat[i + 1] == DASH && pat[i + 2] != BRACKET_END {
            if ch >= pat[i] && ch <= pat[i + 2] {
                matched = true;
            }
            assert(s.skip(3) =~= pat@.skip(i + 3));
            i = i + 3;
        } else {
            if ch == pat[i] {
                matched = true;
            }
            assert(s.skip(1) =~= pat@.skip(i + 1));
            i = i + 1;
        }
        first = false;
    }
    let result: bool = if negate {
        !matched
    } else {
        matched
    };
    (result, i)
}

/// How many stars `pat` starts with.
fn count_stars(pat: &[u8]) -> (n: usize)
    ensures
        n == star_run(pat@),
        n <= pat@.len(),
{
    let mut n: usize = 0;
    assert(pat@.skip(0) =~= pat@);
    while n < pat.len() && pat[n] == STAR
        invariant
            n <= pat.len(),
            n + star_run(pat@.skip(n as int)) == star_run(pat@),
        decreases pat@.len() - n,
    {
        assert(pat@.skip(n as int).skip(1) =~= pat@.skip(n + 1));
        n = n + 1;
    }
    n
}

/// Tries the pattern behind some stars at each place that the stars reach.
fn match_stars(rest: &[u8], text: &[u8], double: bool, Ghost(whole): Ghost<nat>) -> (b: bool)
    requires
        rest@.len() < whole,
    ensures
        b == exists|i: int|
            0 <= i <= text@.len() && (double || !text@.take(i).contains('/' as u8))
                && wild_matches(rest@, #[trigger] text@.skip(i)),
    decreases whole, 0int,
{
    let mut i: usize = 0;
    assert(text@.take(0).len() == 0);
    loop
        invariant
            rest@.len() < whole,
            i <= text.len(),
            double || !text@.take(i as int).contains('/' as u8),
            forall|k: int|
                0 <= k < i ==> !wild_matches(rest@, #[trigger] text@.skip(k)),
        decreases text@.len() - i,
    {
        let tail: &[u8] = text.split_at(i).1;
        assert(tail@ =~= text@.skip(i as int));
        if wildmatch_bytes(rest, tail) {
            return true;
        }
        if i == text.len() {
            return false;
        }
        if !double && text[i] == SLASH {
            assert forall|k: int| i < k <= text@.len() implies text@.take(k).contains(
                '/' as u8,
            ) by {
                assert(text@.take(k)[i as int] == '/' as u8);
            }
            return false;
        }
        proof {
            let t = text@.take(i + 1);
            if !double && t.contains('/' as u8) {
                let k = choose|k: int| 0 <= k < t.len() && t[k] == '/' as u8;
                if k < i {
                    assert(text@.take(i as int)[k] == '/' as u8);
                }
            }
        }
        i = i + 1;
    }
}

/// Whether `pat` matches the whole of `text`, byte by byte.
pub fn wildmatch_bytes(pat: &[u8], text: &[u8]) -> (b: bool)
    ensures
        b == wild_matches(pat@, text@),
    decreases pat@.len(), 1int,
{
    let mut pi: usize = 0;
    let mut ti: usize = 0;
    assert(pat@.skip(0) =~= pat@);
    assert(text@.skip(0) =~= text@);
    while pi < pat.len()
        invariant
            pi <= pat.len(),
            ti <= text.len(),
            wild_matches(pat@.skip(pi as int), text@.skip(ti as int)) == wild_matches(pat@, text@),
        decreases pat@.len() - pi,
    {
        let here: &[u8] = pat.split_at(pi).1;
        assert(here@ =~= pat@.skip(pi as int));
        assert(here@[0] == pat@[pi as int]);
        if pat[pi] == STAR {
            let n: usize = count_stars(here);
            let rest: &[u8] = here.split_at(n).1;
            assert(rest@ =~= here@.skip(star_run(here@) as int));
            let tail: &[u8] = text.split_at(ti).1;
            assert(tail@ =~= text@.skip(ti as int));
            let found: bool = match_stars(rest, tail, n >= 2, Ghost(pat@.len()));
            assert(rest@ == here@.skip(star_run(here@) as int));
            assert(found == wild_matches(here@, tail@));
            return found;
        }
        if ti == text.len() {
            return false;
        }
        assert(text@.skip(ti as int)[0] == text@[ti as int]);
        assert(text@.skip(ti as int).skip(1) =~= text@.skip(ti + 1));
        assert(here@.skip(1) =~= pat@.skip(pi + 1));
        if pat[pi] == BRACKET {
            let (matched, used) = match_char_class(here, text[ti]);
            if !matched {
                return false;
            }
            assert(here@.skip(class_size(here@)) =~= pat@.skip(pi + used));
            pi = pi + used;
        } else if pat[pi] == QUESTION {
            if text[ti] == SLASH {
                return false;
            }
            pi = pi + 1;
        } else {
            if pat[pi] != text[ti] {
                return false;
            }
            pi = pi + 1;
        }
        ti = ti + 1;
    }
    ti == text.len()
}

/// Matches `text` against `pattern`.
pub fn wildmatch(pattern: &str, text: &str) -> (b: bool)
    ensures
        b == wild_matches(encode_utf8(pattern@), encode_utf8(text@)),
{
    wildmatch_bytes(pattern.as_bytes(), text.as_bytes())
}

// ---------------------------------------------------------------------------
// Rules
// ---------------------------------------------------------------------------

/// `s` without the slashes in front of it.
pub open spec fn without_leading_slashes(s: Seq<char>) -> Seq<char>
    decreases s.len(),
{
    if s.len() > 0 && s[0] == '/' {
        without_leading_slashes(s.skip(1))
    } else {
        s
    }
}

/// Whether two stars stand side by side in `s`.
pub open spec fn has_double_star(s: Seq<char>) -> bool {
    exists|i: int| 0 <= i < s.len() - 1 && #[trigger] s[i] == '*' && s[i + 1] == '*'
}

/// Whether `s` starts with two stars.
pub open spec fn starts_with_double_star(s: Seq<char>) -> bool {
    s.len() >= 2 && s[0] == '*' && s[1] == '*'
}

/// Whether `s` holds a wildcard.
pub open spec fn has_wildcard(s: Seq<char>) -> bool {
    s.contains('*') || s.contains('?') || s.contains('[')
}

/// A pattern without the slash behind it that makes it match directories
/// only.
pub open spec fn pattern_body(pattern: Seq<char>) -> Seq<char> {
    if pattern.len() > 0 && pattern.last() == '/' {
        pattern.drop_last()
    } else {
        pattern
    }
}

/// The rule that a pattern stands for.
pub open spec fn rule_of(pattern: Seq<char>, is_include: bool) -> Rule {
    let body = pattern_body(pattern);
    let stored = without_leading_slashes(body);
    Rule {
        pattern: stored,
        rflags: (on(is_include, FILTRULE_INCLUDE) + on(
            pattern.len() > 0 && pattern.last() == '/',
            FILTRULE_DIRECTORY,
        ) + on(body.len() > 0 && body[0] == '/', FILTRULE_ABS_PATH) + on(
            has_wildcard(body),
            FILTRULE_WILD,
        ) + on(has_double_star(body), FILTRULE_WILD2) + on(
            starts_with_double_star(body),
            FILTRULE_WILD2_PREFIX,
        )) as u32,
        slash_cnt: char_count(stored, '/') as u32,
    }
}

/// The last component of a path.
pub open spec fn last_component(name: Seq<char>) -> Seq<char> {
    match last_index(name, '/') {
        Some(i) => name.skip(i + 1),
        None => name,
    }
}

/// What a rule looks at: the whole path where the pattern holds a slash or
/// is rooted, and the last component otherwise.
pub open spec fn match_target(r: Rule, name: Seq<char>) -> Seq<char> {
    if r.slash_cnt > 0 || flag_set(r.rflags, FILTRULE_ABS_PATH) {
        name
    } else {
        last_component(name)
    }
}

/// Whether a rule matches a name.
pub open spec fn rule_matches(r: Rule, name: Seq<char>, is_dir: bool) -> bool {
    if flag_set(r.rflags, FILTRULE_DIRECTORY) && !is_dir {
        false
    } else if flag_set(r.rflags, FILTRULE_WILD) {
        wild_matches(encode_utf8(r.pattern), encode_utf8(match_target(r, name)))
    } else if flag_set(r.rflags, FILTRULE_ABS_PATH) {
        match_target(r, name) == without_leading_slashes(r.pattern)
    } else {
        match_target(r, name) == r.pattern
    }
}

/// Whether a rule is a clear marker.
pub open spec fn is_clear(r: Rule) -> bool {
    flag_set(r.rflags, FILTRULE_CLEAR_LIST)
}

/// A clear marker.
pub open spec fn clear_rule() -> Rule {
    Rule { pattern: Seq::empty(), rflags: FILTRULE_CLEAR_LIST, slash_cnt: 0 }
}

/// Where the rules behind the last clear marker start.
pub open spec fn clear_point(rules: Seq<Rule>) -> nat
    decreases rules.len(),
{
    if rules.len() == 0 {
        0
    } else if is_clear(rules.last()) {
        rules.len()
    } else {
        clear_point(rules.drop_last())
    }
}

/// Whether the first of some rules that matches a name excludes it.
pub open spec fn first_verdict(rules: Seq<Rule>, name: Seq<char>, is_dir: bool) -> bool
    decreases rules.len(),
{
    if rules.len() == 0 {
        false
    } else if rule_matches(rules[0], name, is_dir) {
        !flag_set(rules[0].rflags, FILTRULE_INCLUDE)
    } else {
        first_verdict(rules.skip(1), name, is_dir)
    }
}

/// Whether some rules exclude a name: only those behind the last clear
/// marker count, and the first of them that matches decides.
pub open spec fn excludes(rules: Seq<Rule>, name: Seq<char>, is_dir: bool) -> bool {
    first_verdict(rules.skip(clear_point(rules) as int), name, is_dir)
}

/// The pattern of a rule with the slashes that its flags stand for.
pub open spec fn whole_pattern(r: Rule) -> Seq<char> {
    (if flag_set(r.rflags, FILTRULE_ABS_PATH) {
        seq!['/']
    } else {
        Seq::empty()
    }) + r.pattern + (if flag_set(r.rflags, FILTRULE_DIRECTORY) {
        seq!['/']
    } else {
        Seq::empty()
    })
}

/// Whether a rule is one that a pattern stands for, or a clear marker.
pub open spec fn is_made(r: Rule) -> bool {
    r == clear_rule() || r == rule_of(whole_pattern(r), flag_set(r.rflags, FILTRULE_INCLUDE))
}

/// A rule as a line.
pub open spec fn rule_line(r: Rule) -> Seq<char> {
    if is_clear(r) {
        "!"@
    } else {
        (if flag_set(r.rflags, FILTRULE_INCLUDE) {
            "+ "@
        } else {
            "- "@
        }) + whole_pattern(r)
    }
}

/// The prefix of a rule and its pattern.
pub open spec fn rule_parts(t: Seq<char>) -> (Seq<char>, Seq<char>) {
    if t.len() >= 2 && (t[1] == ' ' || t[1] == ',') {
        (t.take(1), trimmed(t.skip(2)))
    } else {
        match first_index(t, ' ') {
            Some(i) => (t.take(i), trimmed(t.skip(i + 1))),
            None => (t, Seq::empty()),
        }
    }
}

/// The rule that a line stands for.  An empty line, a comment and a prefix
/// of another kind stand for none.
pub open spec fn parsed_rule(line: Seq<char>) -> Option<Rule> {
    let t = trimmed(line);
    if t.len() == 0 || t[0] == '#' {
        None
    } else {
        let (prefix, pattern) = rule_parts(t);
        if prefix == "-"@ || prefix == "exclude"@ {
            Some(rule_of(pattern, false))
        } else if prefix == "+"@ || prefix == "include"@ {
            Some(rule_of(pattern, true))
        } else if prefix == "!"@ {
            Some(clear_rule())
        } else {
            None
        }
    }
}

/// The rules that some lines stand for.
pub open spec fn line_rules(lines: Seq<Seq<char>>) -> Seq<Rule>
    decreases lines.len(),
{
    if lines.len() == 0 {
        Seq::empty()
    } else {
        match parsed_rule(lines.last()) {
            Some(r) => line_rules(lines.drop_last()).push(r),
            None => line_rules(lines.drop_last()),
        }
    }
}

/// Whether a prefix names a file of rules, which is passed over.
pub open spec fn names_file(prefix: Seq<char>) -> bool {
    prefix == "merge"@ || prefix == "dir-merge"@ || prefix == "."@ || prefix == ":"@
}

/// The rule that a line in a file of patterns stands for: the one that its
/// prefix says, and without a prefix the line itself is the pattern.
pub open spec fn pattern_line(line: Seq<char>, is_include: bool) -> Option<Rule> {
    let t = trimmed(line);
    if t.len() == 0 || t[0] == '#' || names_file(rule_parts(t).0) {
        None
    } else {
        match parsed_rule(line) {
            Some(r) => Some(r),
            None => Some(rule_of(t, is_include)),
        }
    }
}

/// The rules that some lines in a file of patterns stand for.
pub open spec fn pattern_line_rules(lines: Seq<Seq<char>>, is_include: bool) -> Seq<Rule>
    decreases lines.len(),
{
    if lines.len() == 0 {
        Seq::empty()
    } else {
        match pattern_line(lines.last(), is_include) {
            Some(r) => pattern_line_rules(lines.drop_last(), is_include).push(r),
            None => pattern_line_rules(lines.drop_last(), is_include),
        }
    }
}

/// The rules in the texts of some files of patterns.
pub open spec fn file_rules(files: Seq<Seq<char>>, is_include: bool) -> Seq<Rule>
    decreases files.len(),
{
    if files.len() == 0 {
        Seq::empty()
    } else {
        file_rules(files.drop_last(), is_include) + pattern_line_rules(
            lines_of(files.last()),
            is_include,
        )
    }
}

/// The rules that some patterns stand for.
pub open spec fn pattern_rules(patterns: Seq<Seq<char>>, is_include: bool) -> Seq<Rule> {
    Seq::new(patterns.len(), |i: int| rule_of(patterns[i], is_include))
}

/// The patterns of files that version control leaves behind.
pub open spec fn cvs_patterns() -> Seq<&'static str> {
    seq![
        "RCS",
        "SCCS",
        "CVS",
        "CVS.adm",
        "RCSLOG",
        "cvslog.*",
        "tags",
        "TAGS",
        ".make.state",
        ".nse_depinfo",
        "*~",
        "#*",
        ".#*",
        ",*",
        "_$*",
        "*$",
        "*.old",
        "*.bak",
        "*.BAK",
        "*.orig",
        "*.rej",
        ".del-*",
        "*.a",
        "*.olb",
        "*.o",
        "*.obj",
        "*.so",
        "*.exe",
        "*.Z",
        "*.elc",
        "*.ln",
        "core",
        ".svn/",
        ".git/",
        ".hg/",
        ".bzr/",
    ]
}

/// The rules that exclude the files that version control leaves behind.
pub open spec fn cvs_rules() -> Seq<Rule> {
    Seq::new(cvs_patterns().len(), |i: int| rule_of(cvs_patterns()[i]@, false))
}

/// The rules that the options stand for, given the texts of the files that
/// they name.
pub open spec fn option_rules(
    o: Options,
    include_files: Seq<Seq<char>>,
    exclude_files: Seq<Seq<char>>,
) -> Seq<Rule> {
    line_rules(texts(o.filter@)) + file_rules(include_files, true) + file_rules(exclude_files, false)
        + pattern_rules(texts(o.include_patterns@), true) + pattern_rules(texts(o.exclude@), false)
        + if o.cvs_exclude {
        cvs_rules()
    } else {
        Seq::empty()
    }
}

/// Whether `c` is among `s`.
fn holds_char(s: &[char], c: char) -> (b: bool)
    ensures
        b == s@.contains(c),
{
    proof {
        lemma_index_from(s@, c, 0);
    }
    match find_char(s, c) {
        Some(i) => {
            assert(s@[i as int] == c);
            true
        },
        None => false,
    }
}

fn holds_double_star(s: &[char]) -> (b: bool)
    ensures
        b == has_double_star(s@),
{
    let mut i: usize = 0;
    while i < s.len()
        invariant
            i <= s.len(),
            forall|k: int| 0 <= k < i && k < s@.len() - 1 ==> !(#[trigger] s@[k] == '*' && s@[k + 1]
                == '*'),
        decreases s@.len() - i,
    {
        if s.len() - i > 1 && s[i] == '*' && s[i + 1] == '*' {
            return true;
        }
        i = i + 1;
    }
    false
}

fn skip_slashes(s: &[char]) -> (out: &[char])
    ensures
        out@ == without_leading_slashes(s@),
{
    let mut rest: &[char] = s;
    while rest.len() > 0 && rest[0] == '/'
        invariant
            without_leading_slashes(rest@) == without_leading_slashes(s@),
        decreases rest@.len(),
    {
        let ghost before = rest@;
        rest = rest.split_at(1).1;
        assert(rest@ =~= before.skip(1));
    }
    rest
}

fn flag_if(b: bool, bit: u32) -> (n: u32)
    ensures
        n == on(b, bit),
{
    if b {
        bit
    } else {
        0
    }
}

/// The rule that a pattern stands for.
fn build_rule(pattern: &[char], is_include: bool) -> (r: FilterRule)
    ensures
        r@ == rule_of(pattern@, is_include),
{
    let dir_only: bool = pattern.len() > 0 && pattern[pattern.len() - 1] == '/';
    let body: &[char] = if dir_only {
        cut(pattern, 0, pattern.len() - 1)
    } else {
        pattern
    };
    assert(body@ =~= pattern_body(pattern@));
    let absolute: bool = body.len() > 0 && body[0] == '/';
    let wild: bool = holds_char(body, '*') || holds_char(body, '?') || holds_char(body, '[');
    let double: bool = holds_double_star(body);
    let double_first: bool = body.len() >= 2 && body[0] == '*' && body[1] == '*';
    let rflags: u32 = flag_if(is_include, FILTRULE_INCLUDE) + flag_if(dir_only, FILTRULE_DIRECTORY)
        + flag_if(absolute, FILTRULE_ABS_PATH) + flag_if(wild, FILTRULE_WILD) + flag_if(
        double,
        FILTRULE_WILD2,
    ) + flag_if(double_first, FILTRULE_WILD2_PREFIX);
    let stored: &[char] = skip_slashes(body);
    FilterRule {
        pattern: string_of(stored),
        rflags,
        slash_cnt: count_char(stored, '/') as u32,
    }
}

fn component(name: &[char]) -> (out: &[char])
    ensures
        out@ == last_component(name@),
{
    match rfind_char(name, '/') {
        Some(i) => {
            assert(name.len() > i);
            let out: &[char] = name.split_at(i + 1).1;
            assert(out@ =~= name@.skip(i + 1));
            out
        },
        None => name,
    }
}

impl FilterRule {
    /// The line that stands for the rule.
    pub fn to_line(&self) -> (line: String)
        ensures
            line@ == rule_line(self@),
    {
        if has_bit(self.rflags, FILTRULE_CLEAR_LIST) {
            return text("!");
        }
        let mut line: String = if has_bit(self.rflags, FILTRULE_INCLUDE) {
            text("+ ")
        } else {
            text("- ")
        };
        if has_bit(self.rflags, FILTRULE_ABS_PATH) {
            line.push('/');
        }
        line.push_str(self.pattern.as_str());
        if has_bit(self.rflags, FILTRULE_DIRECTORY) {
            line.push('/');
        }
        assert(line@ =~= rule_line(self@));
        line
    }

    /// Whether the rule matches a name.
    pub fn matches(&self, name: &str, is_dir: bool) -> (b: bool)
        ensures
            b == rule_matches(self@, name@, is_dir),
    {
        if has_bit(self.rflags, FILTRULE_DIRECTORY) && !is_dir {
            return false;
        }
        let whole: Vec<char> = chars_of(name);
        let absolute: bool = has_bit(self.rflags, FILTRULE_ABS_PATH);
        let target: &[char] = if self.slash_cnt > 0 || absolute {
            whole.as_slice()
        } else {
            component(whole.as_slice())
        };
        assert(target@ == match_target(self@, name@));
        if has_bit(self.rflags, FILTRULE_WILD) {
            let text: String = string_of(target);
            wildmatch(self.pattern.as_str(), text.as_str())
        } else {
            let pattern: Vec<char> = chars_of(self.pattern.as_str());
            if absolute {
                same_chars(target, skip_slashes(pattern.as_slice()))
            } else {
                same_chars(target, pattern.as_slice())
            }
        }
    }
}

/// Parts a rule into its prefix and its pattern.
fn split_rule(t: &[char]) -> (parts: (&[char], &[char]))
    ensures
        (parts.0@, parts.1@) == rule_parts(t@),
{
    if t.len() >= 2 && (t[1] == ' ' || t[1] == ',') {
        let rest: &[char] = t.split_at(2).1;
        let prefix: &[char] = t.split_at(1).0;
        assert(prefix@ =~= t@.take(1));
        assert(rest@ =~= t@.skip(2));
        return (prefix, trim_chars(rest));
    }
    match find_char(t, ' ') {
        Some(i) => {
            assert(t.len() > i);
            let prefix: &[char] = t.split_at(i).0;
            let rest: &[char] = t.split_at(i + 1).1;
            assert(prefix@ =~= t@.take(i as int));
            assert(rest@ =~= t@.skip(i + 1));
            (prefix, trim_chars(rest))
        },
        None => {
            let rest: &[char] = t.split_at(t.len()).1;
            assert(rest@ =~= Seq::<char>::empty());
            (t, rest)
        },
    }
}

impl FilterList {
    /// A list without rules.
    pub fn new() -> (list: FilterList)
        ensures
            list@ == Seq::<Rule>::empty(),
    {
        let list: FilterList = FilterList { rules: Vec::new() };
        assert(list@ =~= Seq::<Rule>::empty());
        list
    }

    fn push_rule(&mut self, r: FilterRule)
        ensures
            final(self)@ == old(self)@.push(r@),
    {
        self.rules.push(r);
        assert(self@ =~= old(self)@.push(r@));
    }

    /// Adds a rule that excludes.
    pub fn add_exclude(&mut self, pattern: &str)
        ensures
            final(self)@ == old(self)@.push(rule_of(pattern@, false)),
    {
        let chars: Vec<char> = chars_of(pattern);
        self.push_rule(build_rule(chars.as_slice(), false));
    }

    /// Adds a rule that includes.
    pub fn add_include(&mut self, pattern: &str)
        ensures
            final(self)@ == old(self)@.push(rule_of(pattern@, true)),
    {
        let chars: Vec<char> = chars_of(pattern);
        self.push_rule(build_rule(chars.as_slice(), true));
    }

    /// Adds the rule that a line stands for, if it stands for one: `- PATTERN`
    /// or `exclude PATTERN`, `+ PATTERN` or `include PATTERN`, and `!` for a
    /// clear marker.
    pub fn parse_rule(&mut self, rule_str: &str)
        ensures
            final(self)@ == match parsed_rule(rule_str@) {
                Some(r) => old(self)@.push(r),
                None => old(self)@,
            },
    {
        let chars: Vec<char> = chars_of(rule_str);
        let t: &[char] = trim_chars(chars.as_slice());
        if t.len() == 0 || t[0] == '#' {
            return;
        }
        let (prefix, pattern): (&[char], &[char]) = split_rule(t);
        if is_text(prefix, "-") || is_text(prefix, "exclude") {
            self.push_rule(build_rule(pattern, false));
        } else if is_text(prefix, "+") || is_text(prefix, "include") {
            self.push_rule(build_rule(pattern, true));
        } else if is_text(prefix, "!") {
            let r: FilterRule = FilterRule {
                pattern: String::new(),
                rflags: FILTRULE_CLEAR_LIST,
                slash_cnt: 0,
            };
            assert(r@ =~= clear_rule());
            self.push_rule(r);
        }
    }

    fn parse_rules(&mut self, lines: &Vec<String>)
        ensures
            final(self)@ == old(self)@ + line_rules(texts(lines@)),
    {
        let ghost all = texts(lines@);
        let mut i: usize = 0;
        assert(self@ =~= old(self)@ + line_rules(all.take(0)));
        while i < lines.len()
            invariant
                i <= lines@.len(),
                all == texts(lines@),
                self@ == old(self)@ + line_rules(all.take(i as int)),
            decreases lines@.len() - i,
        {
            self.parse_rule(lines[i].as_str());
            proof {
                let next = all.take(i + 1);
                assert(next.drop_last() =~= all.take(i as int));
                assert(self@ =~= old(self)@ + line_rules(next));
            }
            i = i + 1;
        }
        assert(all.take(i as int) =~= all);
    }

    /// Adds the rules in the text of a filter file, one on each line.
    pub fn load_from_file(&mut self, content: &str)
        ensures
            final(self)@ == old(self)@ + line_rules(lines_of(content@)),
    {
        let lines: Vec<String> = split_lines(content);
        self.parse_rules(&lines);
    }

    fn add_pattern_line(&mut self, line: &str, is_include: bool)
        ensures
            final(self)@ == match pattern_line(line@, is_include) {
                Some(r) => old(self)@.push(r),
                None => old(self)@,
            },
    {
        let chars: Vec<char> = chars_of(line);
        let t: &[char] = trim_chars(chars.as_slice());
        if t.len() == 0 || t[0] == '#' {
            return;
        }
        let (prefix, _pattern): (&[char], &[char]) = split_rule(t);
        if is_text(prefix, "merge") || is_text(prefix, "dir-merge") || is_text(prefix, ".")
            || is_text(prefix, ":") {
            return;
        }
        if is_text(prefix, "-") || is_text(prefix, "exclude") || is_text(prefix, "+")
            || is_text(prefix, "include") || is_text(prefix, "!") {
            self.parse_rule(line);
        } else {
            self.push_rule(build_rule(t, is_include));
        }
    }

    fn add_pattern_lines(&mut self, lines: &Vec<String>, is_include: bool)
        ensures
            final(self)@ == old(self)@ + pattern_line_rules(texts(lines@), is_include),
    {
        let ghost all = texts(lines@);
        let mut i: usize = 0;
        assert(self@ =~= old(self)@ + pattern_line_rules(all.take(0), is_include));
        while i < lines.len()
            invariant
                i <= lines@.len(),
                all == texts(lines@),
                self@ == old(self)@ + pattern_line_rules(all.take(i as int), is_include),
            decreases lines@.len() - i,
        {
            self.add_pattern_line(lines[i].as_str(), is_include);
            proof {
                let next = all.take(i + 1);
                assert(next.drop_last() =~= all.take(i as int));
                assert(self@ =~= old(self)@ + pattern_line_rules(next, is_include));
            }
            i = i + 1;
        }
        assert(all.take(i as int) =~= all);
    }

    fn load_files(&mut self, files: &[String], is_include: bool)
        ensures
            final(self)@ == old(self)@ + file_rules(texts(files@), is_include),
    {
        let ghost all = texts(files@);
        let mut i: usize = 0;
        assert(self@ =~= old(self)@ + file_rules(all.take(0), is_include));
        while i < files.len()
            invariant
                i <= files@.len(),
                all == texts(files@),
                self@ == old(self)@ + file_rules(all.take(i as int), is_include),
            decreases files@.len() - i,
        {
            let lines: Vec<String> = split_lines(files[i].as_str());
            self.add_pattern_lines(&lines, is_include);
            proof {
                let next = all.take(i + 1);
                assert(next.drop_last() =~= all.take(i as int));
                assert(self@ =~= old(self)@ + file_rules(next, is_include));
            }
            i = i + 1;
        }
        assert(all.take(i as int) =~= all);
    }

    fn add_patterns(&mut self, patterns: &Vec<String>, is_include: bool)
        ensures
            final(self)@ == old(self)@ + pattern_rules(texts(patterns@), is_include),
    {
        let ghost all = texts(patterns@);
        let mut i: usize = 0;
        assert(self@ =~= old(self)@ + pattern_rules(all.take(0), is_include));
        while i < patterns.len()
            invariant
                i <= patterns@.len(),
                all == texts(patterns@),
                self@ == old(self)@ + pattern_rules(all.take(i as int), is_include),
            decreases patterns@.len() - i,
        {
            let chars: Vec<char> = chars_of(patterns[i].as_str());
            self.push_rule(build_rule(chars.as_slice(), is_include));
            i = i + 1;
            assert(self@ =~= old(self)@ + pattern_rules(all.take(i as int), is_include));
        }
        assert(all.take(i as int) =~= all);
    }

    fn add_cvs(&mut self)
        ensures
            final(self)@ == old(self)@ + cvs_rules(),
    {
        let patterns: [&str; 36] = [
            "RCS",
            "SCCS",
            "CVS",
            "CVS.adm",
            "RCSLOG",
            "cvslog.*",
            "tags",
            "TAGS",
            ".make.state",
            ".nse_depinfo",
            "*~",
            "#*",
            ".#*",
            ",*",
            "_$*",
            "*$",
            "*.old",
            "*.bak",
            "*.BAK",
            "*.orig",
            "*.rej",
            ".del-*",
            "*.a",
            "*.olb",
            "*.o",
            "*.obj",
            "*.so",
            "*.exe",
            "*.Z",
            "*.elc",
            "*.ln",
            "core",
            ".svn/",
            ".git/",
            ".hg/",
            ".bzr/",
        ];
        assert(patterns@ =~= cvs_patterns());
        let mut i: usize = 0;
        assert(self@ =~= old(self)@ + cvs_rules().take(0));
        while i < patterns.len()
            invariant
                i <= patterns@.len(),
                patterns@ == cvs_patterns(),
                self@ == old(self)@ + cvs_rules().take(i as int),
            decreases patterns@.len() - i,
        {
            self.add_exclude(patterns[i]);
            i = i + 1;
            assert(self@ =~= old(self)@ + cvs_rules().take(i as int));
        }
        assert(cvs_rules().take(i as int) =~= cvs_rules());
    }

    /// Whether the rules exclude a name.
    pub fn is_excluded(&self, name: &str, is_dir: bool) -> (b: bool)
        ensures
            b == excludes(self@, name@, is_dir),
    {
        let mut start: usize = self.rules.len();
        assert(self@.take(start as int) =~= self@);
        while start > 0 && !has_bit(self.rules[start - 1].rflags, FILTRULE_CLEAR_LIST)
            invariant
                start <= self.rules@.len(),
                clear_point(self@.take(start as int)) == clear_point(self@),
            decreases start,
        {
            let ghost here = self@.take(start as int);
            assert(here.drop_last() =~= self@.take(start - 1));
            start = start - 1;
        }
        let mut i: usize = start;
        let ghost live = self@.skip(start as int);
        assert(self@.take(start as int).len() == start);
        while i < self.rules.len()
            invariant
                i <= self.rules@.len(),
                first_verdict(self@.skip(i as int), name@, is_dir) == excludes(self@, name@, is_dir),
            decreases self.rules@.len() - i,
        {
            let ghost rest = self@.skip(i as int);
            assert(rest[0] == self.rules@[i as int]@);
            assert(rest.skip(1) =~= self@.skip(i + 1));
            if self.rules[i].matches(name, is_dir) {
                return !has_bit(self.rules[i].rflags, FILTRULE_INCLUDE);
            }
            i = i + 1;
        }
        false
    }

    /// The list that the options stand for, given the texts of the files that
    /// `include_from` and `exclude_from` name.
    pub fn from_options(opts: &Options, include_files: &[String], exclude_files: &[String]) -> (list:
        FilterList)
        ensures
            list@ == option_rules(*opts, texts(include_files@), texts(exclude_files@)),
    {
        let mut list: FilterList = FilterList::new();
        list.parse_rules(&opts.filter);
        list.load_files(include_files, true);
        list.load_files(exclude_files, false);
        list.add_patterns(&opts.include_patterns, true);
        list.add_patterns(&opts.exclude, false);
        if opts.cvs_exclude {
            list.add_cvs();
        }
        assert(list@ =~= option_rules(*opts, texts(include_files@), texts(exclude_files@)));
        list
    }
}

// ---------------------------------------------------------------------------
// Laws
// ---------------------------------------------------------------------------

/// A single star matches exactly the texts without a slash.
pub proof fn star_matches_component(text: Seq<u8>)
    ensures
        wild_matches(seq!['*' as u8], text) == !text.contains('/' as u8),
{
    let pat = seq!['*' as u8];
    assert(pat.skip(1) =~= Seq::<u8>::empty());
    reveal_with_fuel(star_run, 2);
    assert(star_run(pat) == 1);
    let n = text.len() as int;
    assert(text.take(n) =~= text);
    assert(text.skip(n).len() == 0);
    assert(wild_matches(pat.skip(1), text.skip(n)));
    assert forall|i: int| 0 <= i < n implies !wild_matches(pat.skip(1), text.skip(i)) by {
        assert(text.skip(i).len() > 0);
    }
}

/// Two stars match every text.
pub proof fn double_star_matches_all(text: Seq<u8>)
    ensures
        wild_matches(seq!['*' as u8, '*' as u8], text),
{
    let pat = seq!['*' as u8, '*' as u8];
    assert(pat.skip(1).skip(1) =~= Seq::<u8>::empty());
    assert(pat.skip(2) =~= Seq::<u8>::empty());
    reveal_with_fuel(star_run, 3);
    assert(star_run(pat) == 2);
    assert(wild_matches(pat.skip(2), text.skip(text.len() as int)));
}

/// Some stars.
pub open spec fn stars(n: nat) -> Seq<u8> {
    Seq::new(n, |i: int| '*' as u8)
}

proof fn lemma_star_count(n: nat, rest: Seq<u8>)
    requires
        rest.len() == 0 || rest[0] != '*' as u8,
    ensures
        star_run(stars(n) + rest) == n,
        (stars(n) + rest).skip(n as int) == rest,
    decreases n,
{
    let pat = stars(n) + rest;
    assert(pat.skip(n as int) =~= rest);
    if n > 0 {
        lemma_star_count((n - 1) as nat, rest);
        assert(pat.skip(1) =~= stars((n - 1) as nat) + rest);
        assert(pat[0] == '*' as u8);
    } else {
        assert(pat =~= rest);
    }
}

/// A star before a further pattern matches some bytes without a slash, and
/// the pattern the rest.
pub proof fn star_before_pattern(rest: Seq<u8>, text: Seq<u8>)
    requires
        rest.len() == 0 || rest[0] != '*' as u8,
    ensures
        wild_matches(seq!['*' as u8] + rest, text) == exists|i: int|
            0 <= i <= text.len() && !text.take(i).contains('/' as u8) && wild_matches(
                rest,
                #[trigger] text.skip(i),
            ),
{
    lemma_star_count(1, rest);
    assert(seq!['*' as u8] + rest =~= stars(1) + rest);
}

/// Two stars or more before a further pattern match any bytes, and the
/// pattern the rest.
pub proof fn stars_before_pattern(n: nat, rest: Seq<u8>, text: Seq<u8>)
    requires
        n >= 2,
        rest.len() == 0 || rest[0] != '*' as u8,
    ensures
        wild_matches(stars(n) + rest, text) == exists|i: int|
            0 <= i <= text.len() && wild_matches(rest, #[trigger] text.skip(i)),
{
    lemma_star_count(n, rest);
    assert((stars(n) + rest)[0] == '*' as u8);
}

/// A pattern without `*`, `?` and `[` matches itself and nothing else.
pub proof fn plain_pattern_matches_itself(pat: Seq<u8>, text: Seq<u8>)
    requires
        !pat.contains('*' as u8),
        !pat.contains('?' as u8),
        !pat.contains('[' as u8),
    ensures
        wild_matches(pat, text) == (pat == text),
    decreases pat.len(),
{
    if pat.len() > 0 {
        assert(pat.contains(pat[0]));
        assert(pat =~= seq![pat[0]] + pat.skip(1));
        if text.len() > 0 {
            assert(text =~= seq![text[0]] + text.skip(1));
            assert forall|b: u8| pat.skip(1).contains(b) implies pat.contains(b) by {
                let i = choose|i: int| 0 <= i < pat.skip(1).len() && pat.skip(1)[i] == b;
                assert(pat[i + 1] == b);
            }
            plain_pattern_matches_itself(pat.skip(1), text.skip(1));
            if pat == text {
                assert(pat.skip(1) == text.skip(1));
            }
        }
    } else {
        assert(text.len() == 0 ==> pat =~= text);
    }
}

/// A question mark before a further pattern matches one byte that is no
/// slash, and the pattern the rest.
pub proof fn question_before_pattern(rest: Seq<u8>, text: Seq<u8>)
    ensures
        wild_matches(seq!['?' as u8] + rest, text) == (text.len() > 0 && text[0] != '/' as u8
            && wild_matches(rest, text.skip(1))),
{
    let pat = seq!['?' as u8] + rest;
    assert(pat[0] == '?' as u8);
    assert(pat.skip(1) =~= rest);
}

/// A pattern without `*`, `?` and `[` before a further pattern matches itself,
/// and the pattern the rest.
pub proof fn plain_before_pattern(plain: Seq<u8>, rest: Seq<u8>, text: Seq<u8>)
    requires
        !plain.contains('*' as u8),
        !plain.contains('?' as u8),
        !plain.contains('[' as u8),
    ensures
        wild_matches(plain + rest, text) == (plain.is_prefix_of(text) && wild_matches(
            rest,
            text.skip(plain.len() as int),
        )),
    decreases plain.len(),
{
    let pat = plain + rest;
    if plain.len() == 0 {
        assert(pat =~= rest);
        assert(text.skip(0) =~= text);
        assert(plain =~= text.subrange(0, 0));
    } else {
        let more = plain.skip(1);
        assert(plain.contains(plain[0]));
        assert(pat[0] == plain[0]);
        assert(pat.skip(1) =~= more + rest);
        assert forall|b: u8| more.contains(b) implies plain.contains(b) by {
            let i = choose|i: int| 0 <= i < more.len() && more[i] == b;
            assert(plain[i + 1] == b);
        }
        if text.len() > 0 && text[0] == plain[0] {
            plain_before_pattern(more, rest, text.skip(1));
            if plain.len() <= text.len() {
                assert(text.skip(1).skip(more.len() as int) =~= text.skip(plain.len() as int));
            }
            if more.is_prefix_of(text.skip(1)) {
                assert(plain =~= text.subrange(0, plain.len() as int)) by {
                    assert forall|i: int| 0 < i < plain.len() implies plain[i] == text[i] by {
                        assert(more[i - 1] == text.skip(1)[i - 1]);
                    }
                }
            }
            if plain.is_prefix_of(text) {
                assert forall|i: int| 0 <= i < plain.len() implies plain[i] == text[i] by {
                    assert(plain[i] == text.subrange(0, plain.len() as int)[i]);
                }
                assert(more =~= text.skip(1).subrange(0, more.len() as int));
            }
        } else if plain.is_prefix_of(text) {
            assert(plain[0] == text.subrange(0, plain.len() as int)[0]);
        }
    }
}

proof fn lemma_clear_point(rules: Seq<Rule>)
    ensures
        clear_point(rules) <= rules.len(),
    decreases rules.len(),
{
    if rules.len() > 0 {
        lemma_clear_point(rules.drop_last());
    }
}

proof fn lemma_clear_point_concat(a: Seq<Rule>, b: Seq<Rule>)
    requires
        forall|i: int| 0 <= i < b.len() ==> !is_clear(#[trigger] b[i]),
    ensures
        clear_point(a + b) == clear_point(a),
    decreases b.len(),
{
    if b.len() == 0 {
        assert(a + b =~= a);
    } else {
        assert((a + b).drop_last() =~= a + b.drop_last());
        assert((a + b).last() == b[b.len() - 1]);
        lemma_clear_point_concat(a, b.drop_last());
    }
}

proof fn lemma_verdict_of_first(a: Seq<Rule>, b: Seq<Rule>, name: Seq<char>, is_dir: bool)
    requires
        exists|i: int| 0 <= i < a.len() && rule_matches(#[trigger] a[i], name, is_dir),
    ensures
        first_verdict(a + b, name, is_dir) == first_verdict(a, name, is_dir),
    decreases a.len(),
{
    if !rule_matches(a[0], name, is_dir) {
        let i = choose|i: int| 0 <= i < a.len() && rule_matches(#[trigger] a[i], name, is_dir);
        assert(a.skip(1)[i - 1] == a[i]);
        assert((a + b).skip(1) =~= a.skip(1) + b);
        lemma_verdict_of_first(a.skip(1), b, name, is_dir);
    }
}

/// Once a rule that counts matches a name, rules added behind it change
/// nothing for that name, as long as none of them is a clear marker.
pub proof fn first_match_decides(rules: Seq<Rule>, more: Seq<Rule>, name: Seq<char>, is_dir: bool)
    requires
        exists|i: int|
            clear_point(rules) <= i < rules.len() && rule_matches(#[trigger] rules[i], name, is_dir),
        forall|i: int| 0 <= i < more.len() ==> !is_clear(#[trigger] more[i]),
    ensures
        excludes(rules + more, name, is_dir) == excludes(rules, name, is_dir),
{
    lemma_clear_point(rules);
    lemma_clear_point_concat(rules, more);
    let k = clear_point(rules) as int;
    let live = rules.skip(k);
    let i = choose|i: int|
        clear_point(rules) <= i < rules.len() && rule_matches(#[trigger] rules[i], name, is_dir);
    assert(live[i - k] == rules[i]);
    assert((rules + more).skip(k) =~= live + more);
    lemma_verdict_of_first(live, more, name, is_dir);
}

/// Behind a clear marker a list decides as if the rules before it had never
/// been there.
pub proof fn clear_forgets(before: Seq<Rule>, after: Seq<Rule>, name: Seq<char>, is_dir: bool)
    requires
        forall|i: int| 0 <= i < after.len() ==> !is_clear(#[trigger] after[i]),
    ensures
        excludes(before.push(clear_rule()) + after, name, is_dir) == excludes(after, name, is_dir),
{
    let head = before.push(clear_rule());
    lemma_clear_point_concat(head, after);
    lemma_clear_point_concat(Seq::empty(), after);
    assert(Seq::<Rule>::empty() + after =~= after);
    assert(is_clear(clear_rule()));
    assert((head + after).skip(head.len() as int) =~= after);
    assert(after.skip(0) =~= after);
}

/// A list in which no rule matches a name does not exclude it.
pub proof fn unmatched_is_not_excluded(rules: Seq<Rule>, name: Seq<char>, is_dir: bool)
    requires
        forall|i: int| 0 <= i < rules.len() ==> !rule_matches(#[trigger] rules[i], name, is_dir),
    ensures
        !excludes(rules, name, is_dir),
{
    lemma_clear_point(rules);
    lemma_no_verdict(rules.skip(clear_point(rules) as int), name, is_dir);
}

proof fn lemma_no_verdict(rules: Seq<Rule>, name: Seq<char>, is_dir: bool)
    requires
        forall|i: int| 0 <= i < rules.len() ==> !rule_matches(#[trigger] rules[i], name, is_dir),
    ensures
        !first_verdict(rules, name, is_dir),
    decreases rules.len(),
{
    if rules.len() > 0 {
        lemma_no_verdict(rules.skip(1), name, is_dir);
    }
}

/// The rules that patterns stand for say what the pattern says: whether it
/// includes, whether it matches directories only, whether it is rooted, and
/// whether it holds a wildcard; none is a clear marker.
pub proof fn rule_flags_are_read_back(pattern: Seq<char>, is_include: bool)
    ensures
        ({
            let f = rule_of(pattern, is_include).rflags;
            let body = pattern_body(pattern);
            &&& flag_set(f, FILTRULE_INCLUDE) == is_include
            &&& flag_set(f, FILTRULE_DIRECTORY) == (pattern.len() > 0 && pattern.last() == '/')
            &&& flag_set(f, FILTRULE_ABS_PATH) == (body.len() > 0 && body[0] == '/')
            &&& flag_set(f, FILTRULE_WILD) == has_wildcard(body)
            &&& flag_set(f, FILTRULE_WILD2) == has_double_star(body)
            &&& flag_set(f, FILTRULE_WILD2_PREFIX) == starts_with_double_star(body)
            &&& !is_clear(rule_of(pattern, is_include))
        }),
{
}

proof fn lemma_leading_slashes(s: Seq<char>)
    ensures
        ({
            let w = without_leading_slashes(s);
            &&& w.len() <= s.len()
            &&& w.len() > 0 ==> w[0] != '/'
            &&& s.len() > 0 && s.last() != '/' ==> w.len() > 0 && w.last() == s.last()
            &&& s.len() == 0 || s[0] != '/' ==> w == s
            &&& has_wildcard(w) == has_wildcard(s)
            &&& has_double_star(w) == has_double_star(s)
        }),
    decreases s.len(),
{
    if s.len() > 0 && s[0] == '/' {
        let t = s.skip(1);
        lemma_leading_slashes(t);
        assert forall|c: char| c != '/' implies t.contains(c) == s.contains(c) by {
            if t.contains(c) {
                let i = choose|i: int| 0 <= i < t.len() && t[i] == c;
                assert(s[i + 1] == c);
            }
            if s.contains(c) {
                let i = choose|i: int| 0 <= i < s.len() && s[i] == c;
                assert(t[i - 1] == c);
            }
        }
        if has_double_star(t) {
            let i = choose|i: int| 0 <= i < t.len() - 1 && #[trigger] t[i] == '*' && t[i + 1] == '*';
            assert(s[i + 1] == '*' && s[i + 1 + 1] == '*');
        }
        if has_double_star(s) {
            let i = choose|i: int| 0 <= i < s.len() - 1 && #[trigger] s[i] == '*' && s[i + 1] == '*';
            assert(t[i - 1] == '*' && t[i - 1 + 1] == '*');
        }
    }
}

/// The rule that a pattern stands for is found again from its pattern and
/// flags.
pub proof fn pattern_is_found_again(pattern: Seq<char>, is_include: bool)
    ensures
        is_made(rule_of(pattern, is_include)),
        !is_clear(rule_of(pattern, is_include)),
{
    let r = rule_of(pattern, is_include);
    rule_flags_are_read_back(pattern, is_include);
    let body = pattern_body(pattern);
    let q = whole_pattern(r);
    let front: Seq<char> = if body.len() > 0 && body[0] == '/' {
        seq!['/']
    } else {
        Seq::empty()
    };
    let again = front + r.pattern;
    lemma_leading_slashes(body);
    if pattern.len() > 0 && pattern.last() == '/' {
        assert(q.drop_last() =~= again);
    } else {
        assert(q =~= again);
    }
    assert(pattern_body(q) == again);
    lemma_leading_slashes(again);
    assert(without_leading_slashes(again) == r.pattern) by {
        if front.len() > 0 {
            assert(again.skip(1) =~= r.pattern);
            lemma_leading_slashes(r.pattern);
        } else {
            assert(again =~= r.pattern);
        }
    }
    if front.len() == 0 {
        assert(again =~= body);
    }
    assert(rule_of(q, is_include) =~= r);
}

proof fn lemma_trimmed_ends(s: Seq<char>)
    requires
        trimmed(s) == s,
        s.len() > 0,
    ensures
        !is_white(s[0]),
        !is_white(s.last()),
{
    lemma_trim_front_len(s);
    lemma_trim_back_len(trim_front(s));
    if is_white(s[0]) {
        lemma_trim_front_len(s.skip(1));
    }
    assert(trim_front(s) == s);
    if is_white(s.last()) {
        lemma_trim_back_len(s.drop_last());
    }
}

proof fn lemma_trim_front_len(s: Seq<char>)
    ensures
        trim_front(s).len() <= s.len(),
    decreases s.len(),
{
    if s.len() > 0 && is_white(s[0]) {
        lemma_trim_front_len(s.skip(1));
    }
}

proof fn lemma_trim_back_len(s: Seq<char>)
    ensures
        trim_back(s).len() <= s.len(),
    decreases s.len(),
{
    if s.len() > 0 && is_white(s.last()) {
        lemma_trim_back_len(s.drop_last());
    }
}

/// Whether a rule can stand on a line: there is no white space around its
/// pattern, which reading the line would take off.
pub open spec fn fits_line(r: Rule) -> bool {
    trimmed(whole_pattern(r)) == whole_pattern(r)
}

/// A rule is read back from the line that stands for it.
pub proof fn rule_line_is_read_back(r: Rule)
    requires
        is_made(r),
        fits_line(r),
    ensures
        parsed_rule(rule_line(r)) == Some(r),
{
    reveal_strlit("!");
    reveal_strlit("+ ");
    reveal_strlit("- ");
    reveal_strlit("+");
    reveal_strlit("-");
    reveal_strlit("exclude");
    reveal_strlit("include");
    let line = rule_line(r);
    let q = whole_pattern(r);
    let is_include = flag_set(r.rflags, FILTRULE_INCLUDE);
    if r == clear_rule() {
        assert(is_clear(r));
        assert(line.len() == 1 && line[0] == '!');
        assert(trim_front(line) == line);
        assert(trimmed(line) == line);
        assert(first_index(line, ' ') is None) by {
            lemma_index_from(line, ' ', 0);
        }
        assert(rule_parts(line) == (line, Seq::<char>::empty()));
        assert("-"@[0] != '!' && "+"@[0] != '!');
    } else {
        pattern_is_found_again(q, is_include);
        let sign = if is_include {
            '+'
        } else {
            '-'
        };
        assert(line =~= seq![sign, ' '] + q);
        assert(trim_front(line) == line);
        let mark = if is_include {
            "+"@
        } else {
            "-"@
        };
        if q.len() == 0 {
            let t = line.drop_last();
            assert(line.last() == ' ');
            assert(t =~= mark);
            assert(trim_back(t) == t);
            assert(trimmed(line) == t);
            assert(first_index(t, ' ') is None) by {
                lemma_index_from(t, ' ', 0);
            }
            assert(rule_parts(t).1 =~= q);
        } else {
            lemma_trimmed_ends(q);
            assert(line.last() == q.last());
            assert(trimmed(line) == line);
            assert(line.take(1) =~= mark);
            assert(line.skip(2) =~= q);
        }
    }
}

proof fn lemma_parsed_is_made(line: Seq<char>)
    ensures
        parsed_rule(line) matches Some(r) ==> is_made(r),
{
    let (_, pattern) = rule_parts(trimmed(line));
    pattern_is_found_again(pattern, false);
    pattern_is_found_again(pattern, true);
}

/// Whether every rule is one that a pattern stands for, or a clear marker.
pub open spec fn all_made(rules: Seq<Rule>) -> bool {
    forall|i: int| 0 <= i < rules.len() ==> is_made(#[trigger] rules[i])
}

proof fn lemma_lines_are_made(lines: Seq<Seq<char>>)
    ensures
        all_made(line_rules(lines)),
    decreases lines.len(),
{
    if lines.len() > 0 {
        let before = line_rules(lines.drop_last());
        lemma_lines_are_made(lines.drop_last());
        lemma_parsed_is_made(lines.last());
        assert forall|i: int| 0 <= i < line_rules(lines).len() implies is_made(
            #[trigger] line_rules(lines)[i],
        ) by {
            if i < before.len() {
                assert(is_made(before[i]));
            }
        }
    }
}

proof fn lemma_pattern_lines_are_made(lines: Seq<Seq<char>>, is_include: bool)
    ensures
        all_made(pattern_line_rules(lines, is_include)),
    decreases lines.len(),
{
    if lines.len() > 0 {
        let before = pattern_line_rules(lines.drop_last(), is_include);
        let now = pattern_line_rules(lines, is_include);
        lemma_pattern_lines_are_made(lines.drop_last(), is_include);
        lemma_parsed_is_made(lines.last());
        pattern_is_found_again(trimmed(lines.last()), is_include);
        assert forall|i: int| 0 <= i < now.len() implies is_made(#[trigger] now[i]) by {
            if i < before.len() {
                assert(is_made(before[i]));
            }
        }
    }
}

proof fn lemma_files_are_made(files: Seq<Seq<char>>, is_include: bool)
    ensures
        all_made(file_rules(files, is_include)),
    decreases files.len(),
{
    if files.len() > 0 {
        let before = file_rules(files.drop_last(), is_include);
        let more = pattern_line_rules(lines_of(files.last()), is_include);
        lemma_files_are_made(files.drop_last(), is_include);
        lemma_pattern_lines_are_made(lines_of(files.last()), is_include);
        assert forall|i: int| 0 <= i < (before + more).len() implies is_made(
            #[trigger] (before + more)[i],
        ) by {
            if i < before.len() {
                assert(is_made(before[i]));
            } else {
                assert(is_made(more[i - before.len()]));
            }
        }
    }
}

/// Every rule of the options is one that a pattern stands for, or a clear
/// marker.
pub proof fn option_rules_are_made(
    o: Options,
    include_files: Seq<Seq<char>>,
    exclude_files: Seq<Seq<char>>,
)
    ensures
        all_made(option_rules(o, include_files, exclude_files)),
{
    lemma_lines_are_made(texts(o.filter@));
    lemma_files_are_made(include_files, true);
    lemma_files_are_made(exclude_files, false);
    let a = pattern_rules(texts(o.include_patterns@), true);
    let b = pattern_rules(texts(o.exclude@), false);
    assert forall|i: int| 0 <= i < a.len() implies is_made(#[trigger] a[i]) by {
        pattern_is_found_again(texts(o.include_patterns@)[i], true);
    }
    assert forall|i: int| 0 <= i < b.len() implies is_made(#[trigger] b[i]) by {
        pattern_is_found_again(texts(o.exclude@)[i], false);
    }
    assert forall|i: int| 0 <= i < cvs_rules().len() implies is_made(#[trigger] cvs_rules()[i]) by {
        pattern_is_found_again(cvs_patterns()[i]@, false);
    }
}

} // verus!
