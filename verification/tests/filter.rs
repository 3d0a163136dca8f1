use rsync_rs::filter::{wildmatch, wildmatch_bytes, FilterList};
use rsync_rs::options::Options;

#[test]
fn test_wildmatch_star() {
    assert!(wildmatch("*.rs", "main.rs"));
    assert!(wildmatch("*.rs", "foo.rs"));
    assert!(!wildmatch("*.rs", "foo.go"));
    assert!(!wildmatch("*.rs", "src/main.rs")); // '*' should not cross '/'
}

#[test]
fn test_wildmatch_double_star() {
    assert!(wildmatch("**/*.rs", "src/main.rs"));
    assert!(wildmatch("**/*.rs", "a/b/c/foo.rs"));
    assert!(!wildmatch("**/*.rs", "foo.go"));
}

#[test]
fn test_wildmatch_question() {
    assert!(wildmatch("fo?.rs", "foo.rs"));
    assert!(!wildmatch("fo?.rs", "fo/.rs"));
}

#[test]
fn test_wildmatch_char_class() {
    assert!(wildmatch("[abc].rs", "a.rs"));
    assert!(wildmatch("[abc].rs", "b.rs"));
    assert!(!wildmatch("[abc].rs", "d.rs"));
    assert!(wildmatch("[a-z].rs", "m.rs"));
    assert!(!wildmatch("[a-z].rs", "M.rs"));
}

#[test]
fn test_exclude_include_order() {
    let mut list = FilterList::new();
    list.add_exclude("*.log");
    list.add_include("important.log");
    assert!(list.is_excluded("debug.log", false));
    assert!(list.is_excluded("important.log", false)); // exclude matched first
}

#[test]
fn test_include_before_exclude() {
    let mut list = FilterList::new();
    list.add_include("important.log");
    list.add_exclude("*.log");
    assert!(!list.is_excluded("important.log", false));
    assert!(list.is_excluded("debug.log", false));
}

#[test]
fn test_directory_rule() {
    let mut list = FilterList::new();
    list.add_exclude(".git/");
    assert!(list.is_excluded(".git", true));
    assert!(!list.is_excluded(".git", false)); // not a dir
}

#[test]
fn test_parse_rule_minus() {
    let mut list = FilterList::new();
    list.parse_rule("- *.o");
    assert!(list.is_excluded("foo.o", false));
    assert!(!list.is_excluded("foo.c", false));
}

#[test]
fn test_parse_rule_plus() {
    let mut list = FilterList::new();
    list.parse_rule("+ keep.log");
    list.parse_rule("- *.log");
    assert!(!list.is_excluded("keep.log", false));
    assert!(list.is_excluded("drop.log", false));
}

#[test]
fn a_clear_marker_forgets_what_was_before() {
    let mut list = FilterList::new();
    list.parse_rule("- *.o");
    list.parse_rule("!");
    list.parse_rule("- *.tmp");
    assert!(!list.is_excluded("a.o", false));
    assert!(list.is_excluded("a.tmp", false));
}

#[test]
fn rules_are_loaded_from_lines() {
    let mut list = FilterList::new();
    list.load_from_file("# comment\n\n+ keep.o\n- *.o\n");
    assert!(!list.is_excluded("keep.o", false));
    assert!(list.is_excluded("drop.o", false));
}

#[test]
fn stars_stop_at_slashes_and_double_stars_do_not() {
    assert!(wildmatch("*", "abc"));
    assert!(!wildmatch("*", "a/b"));
    assert!(wildmatch("**", "a/b/c"));
    assert!(wildmatch("?", "x"));
    assert!(!wildmatch("?", "/"));
    assert!(wildmatch("plain", "plain"));
    assert!(!wildmatch("plain", "plainer"));
}

#[test]
fn options_make_rules() {
    let mut o = Options::default();
    o.filter = vec!["- *.bak".to_string()];
    o.include_patterns = vec!["a.tmp".to_string()];
    o.exclude = vec!["*.tmp".to_string()];
    o.cvs_exclude = true;
    let list = FilterList::from_options(&o, &[], &["- *.log\n".to_string()]);
    assert!(list.is_excluded("x.bak", false));
    assert!(!list.is_excluded("a.tmp", false));
    assert!(list.is_excluded("b.tmp", false));
    assert!(list.is_excluded("b.log", false));
    assert!(list.is_excluded(".git", true));
    assert!(!list.is_excluded("main.c", false));
}

#[test]
fn files_of_patterns_hold_patterns() {
    let list = FilterList::from_options(
        &Options::default(),
        &["keep.o\n".to_string()],
        &["# objects\n*.o\n  core dump \n+ a.tmp\n*.tmp\nmerge x\n".to_string()],
    );
    assert!(!list.is_excluded("keep.o", false));
    assert!(list.is_excluded("a.o", false));
    assert!(!list.is_excluded("a.c", false));
    assert!(list.is_excluded("core dump", false));
    assert!(!list.is_excluded("a.tmp", false));
    assert!(list.is_excluded("b.tmp", false));
    assert!(!list.is_excluded("x", false));
}

#[test]
fn stars_before_a_pattern_take_what_they_may() {
    assert!(wildmatch("*b", "aab"));
    assert!(!wildmatch("*b", "a/b"));
    assert!(wildmatch("**b", "a/b"));
    assert!(wildmatch("***b", "a/b"));
    assert!(!wildmatch("**b", "a/bc"));
}

#[test]
fn bytes_are_matched_one_by_one() {
    assert!(wildmatch_bytes(b"?b*", b"ab/"[..2].as_ref()));
    assert!(!wildmatch_bytes(b"?b", b"/b"));
    assert!(!wildmatch_bytes(b"?", b""));
    assert!(wildmatch_bytes(b"ab?d", b"abcd"));
    assert!(!wildmatch_bytes(b"ab", b"abc"));
    assert!(wildmatch_bytes(b"ab*", b"abc"));
}

#[test]
fn a_rule_is_written_as_a_line() {
    let mut list = FilterList::new();
    list.add_include("/a/b/");
    list.parse_rule("!");
    list.add_exclude("c");
    let lines: Vec<String> = list.rules.iter().map(|r| r.to_line()).collect();
    assert_eq!(lines, ["+ /a/b/", "!", "- c"]);
}
