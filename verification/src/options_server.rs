//! The options that the far end of a connection was started with.
//!
//! One-letter options come bundled in one word.  The letter `a` stands for
//! `rlptgoD` and is taken apart here; what follows the letter `e` describes
//! the protocol and is no option.

use vstd::prelude::*;
use vstd::slice::slice_to_vec;
use vstd::utf8::encode_utf8;

use crate::flist::send::Preserve;
use crate::protocol::types::{char_count, count_char};
use crate::text::{
    begins_with, chars_of, debug_text, debug_text_of, decimal, find_char, first_index, is_text,
    lemma_index_from, lemma_texts_push, push_decimal, starts_with_text, string_of, texts,
};

verus! {

/// The options that the far end was started with.
#[derive(Clone, Debug, Default, PartialEq, Eq)]
pub struct ServerFlags {
    pub verbose: u32,
    pub quiet: bool,
    pub archive: bool,
    pub recursive: bool,
    pub links: bool,
    pub perms: bool,
    pub times: bool,
    pub group: bool,
    pub owner: bool,
    pub devices: bool,
    pub specials: bool,
    pub checksum: bool,
    pub update: bool,
    pub hard_links: bool,
    pub copy_links: bool,
    pub keep_dirlinks: bool,
    pub whole_file: bool,
    pub dry_run: bool,
    pub relative: bool,
    pub itemize: bool,
    pub fuzzy: bool,
    pub xattrs: bool,
    pub cvs_exclude: bool,
    pub ignore_times: bool,
    pub one_file_system: bool,
    pub protect_args: bool,
    pub compress: bool,
    pub delete: bool,
    /// Letters that are no option.
    pub unknown: String,
    /// What follows the letter `e`.
    pub e_tail: String,
}

/// Whether a letter stands for an option.
pub open spec fn is_option(c: char) -> bool {
    "vqarlptgoDcuHLkWnRifCIsxz"@.contains(c)
}

/// The letters of a word that stand for themselves: those behind the dash
/// and before the first `e`.  A word without a dash has none.
pub open spec fn word_letters(arg: Seq<char>) -> Seq<char> {
    if arg.len() == 0 || arg[0] != '-' {
        Seq::empty()
    } else {
        match first_index(arg.skip(1), 'e') {
            Some(i) => arg.skip(1).take(i),
            None => arg.skip(1),
        }
    }
}

/// What follows the first `e` of a word.
pub open spec fn word_tail(arg: Seq<char>) -> Seq<char> {
    if arg.len() == 0 || arg[0] != '-' {
        Seq::empty()
    } else {
        match first_index(arg.skip(1), 'e') {
            Some(i) => arg.skip(1).skip(i + 1),
            None => Seq::empty(),
        }
    }
}

/// Whether a letter is in one of some words.
pub open spec fn given(words: Seq<Seq<char>>, c: char) -> bool {
    exists|i: int| 0 <= i < words.len() && char_count(#[trigger] words[i], c) >= 1
}

/// Whether a letter is in one of some words twice.
pub open spec fn given_twice(words: Seq<Seq<char>>, c: char) -> bool {
    exists|i: int| 0 <= i < words.len() && char_count(#[trigger] words[i], c) >= 2
}

/// How often a letter is in some words.
pub open spec fn times_given(words: Seq<Seq<char>>, c: char) -> nat
    decreases words.len(),
{
    if words.len() == 0 {
        0
    } else {
        times_given(words.drop_last(), c) + char_count(words.last(), c)
    }
}

/// Whether the options are those that some words of letters stand for.  The
/// letter `a` stands for `rlptgoD` as well; `x` once keeps to one file
/// system, and twice in a word asks for extended attributes too.
pub open spec fn holds_letters(f: ServerFlags, words: Seq<Seq<char>>) -> bool {
    &&& f.verbose == times_given(words, 'v')
    &&& f.quiet == given(words, 'q')
    &&& f.archive == given(words, 'a')
    &&& f.recursive == (given(words, 'r') || given(words, 'a'))
    &&& f.links == (given(words, 'l') || given(words, 'a'))
    &&& f.perms == (given(words, 'p') || given(words, 'a'))
    &&& f.times == (given(words, 't') || given(words, 'a'))
    &&& f.group == (given(words, 'g') || given(words, 'a'))
    &&& f.owner == (given(words, 'o') || given(words, 'a'))
    &&& f.devices == (given(words, 'D') || given(words, 'a'))
    &&& f.specials == (given(words, 'D') || given(words, 'a'))
    &&& f.checksum == given(words, 'c')
    &&& f.update == given(words, 'u')
    &&& f.hard_links == given(words, 'H')
    &&& f.copy_links == given(words, 'L')
    &&& f.keep_dirlinks == given(words, 'k')
    &&& f.whole_file == given(words, 'W')
    &&& f.dry_run == given(words, 'n')
    &&& f.relative == given(words, 'R')
    &&& f.itemize == given(words, 'i')
    &&& f.fuzzy == given(words, 'f')
    &&& f.cvs_exclude == given(words, 'C')
    &&& f.ignore_times == given(words, 'I')
    &&& f.one_file_system == given(words, 'x')
    &&& f.protect_args == given(words, 's')
    &&& f.compress == given(words, 'z')
    &&& f.xattrs == given_twice(words, 'x')
}

/// The options with `a` taken apart.
pub open spec fn flags_expanded(f: ServerFlags) -> ServerFlags {
    if f.archive {
        ServerFlags {
            recursive: true,
            links: true,
            perms: true,
            times: true,
            group: true,
            owner: true,
            devices: true,
            specials: true,
            ..f
        }
    } else {
        f
    }
}

/// What an unknown letter is kept as: its bytes, one character each.
pub open spec fn unknown_letter(c: char) -> Seq<char> {
    let b = encode_utf8(seq![c]);
    Seq::new(b.len(), |i: int| b[i] as char)
}

/// The letters of a word that are no options.
pub open spec fn unknown_letters(letters: Seq<char>) -> Seq<char>
    decreases letters.len(),
{
    if letters.len() == 0 {
        Seq::empty()
    } else if is_option(letters.last()) {
        unknown_letters(letters.drop_last())
    } else {
        unknown_letters(letters.drop_last()) + unknown_letter(letters.last())
    }
}

/// The letters of `a`, and those of `b` that are not among them yet.
pub open spec fn joined_letters(a: Seq<char>, b: Seq<char>) -> Seq<char>
    decreases b.len(),
{
    if b.len() == 0 {
        a
    } else if a.contains(b[0]) {
        joined_letters(a, b.skip(1))
    } else {
        joined_letters(a.push(b[0]), b.skip(1))
    }
}

/// Whether an argument is an option with a name of its own.
pub open spec fn is_long(arg: Seq<char>) -> bool {
    begins_with(arg, "--"@)
}

/// Whether an argument is a word of letters.
pub open spec fn is_word(arg: Seq<char>) -> bool {
    !is_long(arg) && arg.len() > 1 && arg[0] == '-'
}

/// Whether a named option asks for deletion.
pub open spec fn asks_delete(name: Seq<char>) -> bool {
    name == "delete"@ || name == "delete-before"@ || name == "delete-during"@ || name
        == "delete-after"@
}

/// Whether one of some arguments asks for deletion.
pub open spec fn delete_given(args: Seq<Seq<char>>) -> bool {
    exists|i: int|
        0 <= i < args.len() && is_long(#[trigger] args[i]) && asks_delete(
            args[i].skip("--"@.len() as int),
        )
}

/// The letters of the words among some arguments.
pub open spec fn words_in(args: Seq<Seq<char>>) -> Seq<Seq<char>>
    decreases args.len(),
{
    if args.len() == 0 {
        Seq::empty()
    } else {
        let before = words_in(args.drop_last());
        if is_word(args.last()) {
            before.push(word_letters(args.last()))
        } else {
            before
        }
    }
}

/// The letters in some arguments that are no options, each but once.
pub open spec fn unknown_given(args: Seq<Seq<char>>) -> Seq<char>
    decreases args.len(),
{
    if args.len() == 0 {
        Seq::empty()
    } else {
        let before = unknown_given(args.drop_last());
        if is_word(args.last()) {
            joined_letters(before, unknown_letters(word_letters(args.last())))
        } else {
            before
        }
    }
}

/// What follows the `e` of the last word that has something there.
pub open spec fn tail_given(args: Seq<Seq<char>>) -> Seq<char>
    decreases args.len(),
{
    if args.len() == 0 {
        Seq::empty()
    } else if is_word(args.last()) && word_tail(args.last()).len() > 0 {
        word_tail(args.last())
    } else {
        tail_given(args.drop_last())
    }
}

/// The arguments that are no options.
pub open spec fn path_args(args: Seq<Seq<char>>) -> Seq<Seq<char>>
    decreases args.len(),
{
    if args.len() == 0 {
        Seq::empty()
    } else {
        let before = path_args(args.drop_last());
        if is_long(args.last()) || is_word(args.last()) {
            before
        } else {
            before.push(args.last())
        }
    }
}

/// How many characters some arguments have together.
pub open spec fn total_len(args: Seq<Seq<char>>) -> nat
    decreases args.len(),
{
    if args.len() == 0 {
        0
    } else {
        total_len(args.drop_last()) + args.last().len()
    }
}

spec fn holds_words(words: Seq<Vec<char>>, want: Seq<Seq<char>>) -> bool {
    &&& words.len() == want.len()
    &&& forall|i: int| 0 <= i < words.len() ==> (#[trigger] words[i])@ == want[i]
}

proof fn lemma_char_count(s: Seq<char>, c: char)
    ensures
        char_count(s, c) <= s.len(),
    decreases s.len(),
{
    if s.len() > 0 {
        lemma_char_count(s.drop_last(), c);
    }
}

proof fn lemma_times_given(words: Seq<Seq<char>>, c: char)
    ensures
        times_given(words, c) <= total_len(words),
    decreases words.len(),
{
    if words.len() > 0 {
        lemma_times_given(words.drop_last(), c);
        lemma_char_count(words.last(), c);
    }
}

fn some_word(words: &Vec<Vec<char>>, Ghost(want): Ghost<Seq<Seq<char>>>, c: char, n: usize) -> (b:
    bool)
    requires
        holds_words(words@, want),
    ensures
        b == exists|i: int| 0 <= i < want.len() && char_count(#[trigger] want[i], c) >= n,
{
    let mut i: usize = 0;
    while i < words.len()
        invariant
            i <= words@.len(),
            holds_words(words@, want),
            forall|k: int| 0 <= k < i ==> char_count(#[trigger] want[k], c) < n,
        decreases words@.len() - i,
    {
        assert(words@[i as int]@ == want[i as int]);
        if count_char(words[i].as_slice(), c) >= n {
            return true;
        }
        i = i + 1;
    }
    false
}

fn count_given(words: &Vec<Vec<char>>, Ghost(want): Ghost<Seq<Seq<char>>>, c: char) -> (n: u32)
    requires
        holds_words(words@, want),
        total_len(want) <= u32::MAX,
    ensures
        n == times_given(want, c),
{
    let mut n: u32 = 0;
    let mut i: usize = 0;
    assert(want.take(0) =~= Seq::<Seq<char>>::empty());
    while i < words.len()
        invariant
            i <= words@.len(),
            holds_words(words@, want),
            total_len(want) <= u32::MAX,
            n == times_given(want.take(i as int), c),
        decreases words@.len() - i,
    {
        let ghost next = want.take(i + 1);
        assert(next.drop_last() =~= want.take(i as int));
        assert(words@[i as int]@ == want[i as int]);
        proof {
            lemma_total_len(want, i + 1);
            lemma_times_given(next, c);
            lemma_char_count(want[i as int], c);
        }
        n = n + count_char(words[i].as_slice(), c) as u32;
        i = i + 1;
    }
    assert(want.take(i as int) =~= want);
    n
}

/// The options that some words of letters stand for.
fn flags_of(
    words: &Vec<Vec<char>>,
    Ghost(want): Ghost<Seq<Seq<char>>>,
    delete: bool,
    unknown: String,
    e_tail: String,
) -> (f: ServerFlags)
    requires
        holds_words(words@, want),
        total_len(want) <= u32::MAX,
    ensures
        holds_letters(f, want),
        f.delete == delete,
        f.unknown == unknown,
        f.e_tail == e_tail,
{
    let archive: bool = some_word(words, Ghost(want), 'a', 1);
    ServerFlags {
        verbose: count_given(words, Ghost(want), 'v'),
        quiet: some_word(words, Ghost(want), 'q', 1),
        archive,
        recursive: some_word(words, Ghost(want), 'r', 1) || archive,
        links: some_word(words, Ghost(want), 'l', 1) || archive,
        perms: some_word(words, Ghost(want), 'p', 1) || archive,
        times: some_word(words, Ghost(want), 't', 1) || archive,
        group: some_word(words, Ghost(want), 'g', 1) || archive,
        owner: some_word(words, Ghost(want), 'o', 1) || archive,
        devices: some_word(words, Ghost(want), 'D', 1) || archive,
        specials: some_word(words, Ghost(want), 'D', 1) || archive,
        checksum: some_word(words, Ghost(want), 'c', 1),
        update: some_word(words, Ghost(want), 'u', 1),
        hard_links: some_word(words, Ghost(want), 'H', 1),
        copy_links: some_word(words, Ghost(want), 'L', 1),
        keep_dirlinks: some_word(words, Ghost(want), 'k', 1),
        whole_file: some_word(words, Ghost(want), 'W', 1),
        dry_run: some_word(words, Ghost(want), 'n', 1),
        relative: some_word(words, Ghost(want), 'R', 1),
        itemize: some_word(words, Ghost(want), 'i', 1),
        fuzzy: some_word(words, Ghost(want), 'f', 1),
        xattrs: some_word(words, Ghost(want), 'x', 2),
        cvs_exclude: some_word(words, Ghost(want), 'C', 1),
        ignore_times: some_word(words, Ghost(want), 'I', 1),
        one_file_system: some_word(words, Ghost(want), 'x', 1),
        protect_args: some_word(words, Ghost(want), 's', 1),
        compress: some_word(words, Ghost(want), 'z', 1),
        delete,
        unknown,
        e_tail,
    }
}

/// Which attributes the file list of a server carries.
pub open spec fn server_carries(f: ServerFlags) -> Preserve {
    Preserve { uid: f.owner, gid: f.group, times: f.times, devices: f.devices }
}

impl ServerFlags {
    /// Takes the letter `a` apart into those it stands for.
    pub fn expand_archive(&mut self)
        ensures
            *final(self) == flags_expanded(*old(self)),
    {
        if self.archive {
            self.recursive = true;
            self.links = true;
            self.perms = true;
            self.times = true;
            self.group = true;
            self.owner = true;
            self.devices = true;
            self.specials = true;
        }
    }

    /// Which attributes the file list carries.
    pub fn to_preserve(&self) -> (p: Preserve)
        ensures
            p == server_carries(*self),
            p == (Preserve {
                uid: self.owner,
                gid: self.group,
                times: self.times,
                devices: self.devices,
            }),
    {
        Preserve { uid: self.owner, gid: self.group, times: self.times, devices: self.devices }
    }

    /// The options in one line, for debugging.
    pub fn to_text(&self) -> (s: String)
        ensures
            s@ == flags_text(*self),
    {
        let mut s: String = String::new();
        s.push_str("ServerFlags { v=");
        push_decimal(&mut s, self.verbose as u64);
        s.push_str(self.first_switches().as_str());
        s.push_str(self.more_switches().as_str());
        s.push_str(" unknown=");
        s.push_str(debug_text(self.unknown.as_str()).as_str());
        s.push_str(" e_tail=");
        s.push_str(debug_text(self.e_tail.as_str()).as_str());
        s.push_str(" }");
        s
    }

    fn first_switches(&self) -> (s: String)
        ensures
            holds_text(s, first_switches(*self)),
    {
        let mut s: String = String::new();
        push_switch(&mut s, " a=", self.archive);
        push_switch(&mut s, " r=", self.recursive);
        push_switch(&mut s, " l=", self.links);
        push_switch(&mut s, " p=", self.perms);
        push_switch(&mut s, " t=", self.times);
        push_switch(&mut s, " g=", self.group);
        push_switch(&mut s, " o=", self.owner);
        push_switch(&mut s, " D=", self.devices);
        push_switch(&mut s, " q=", self.quiet);
        push_switch(&mut s, " c=", self.checksum);
        push_switch(&mut s, " u=", self.update);
        s
    }

    fn more_switches(&self) -> (s: String)
        ensures
            holds_text(s, more_switches(*self)),
    {
        let mut s: String = String::new();
        push_switch(&mut s, " H=", self.hard_links);
        push_switch(&mut s, " L=", self.copy_links);
        push_switch(&mut s, " k=", self.keep_dirlinks);
        push_switch(&mut s, " W=", self.whole_file);
        push_switch(&mut s, " n=", self.dry_run);
        push_switch(&mut s, " R=", self.relative);
        push_switch(&mut s, " i=", self.itemize);
        push_switch(&mut s, " f=", self.fuzzy);
        push_switch(&mut s, " x=", self.xattrs);
        push_switch(&mut s, " C=", self.cvs_exclude);
        push_switch(&mut s, " I=", self.ignore_times);
        s
    }
}

/// An option and whether it is on.
pub open spec fn switch(name: Seq<char>, b: bool) -> Seq<char> {
    name + if b {
        "true"@
    } else {
        "false"@
    }
}

/// The first options of the line for debugging.
pub open spec fn first_switches(f: ServerFlags) -> Seq<char> {
    Seq::empty()
        + switch(" a="@, f.archive)
        + switch(" r="@, f.recursive)
        + switch(" l="@, f.links)
        + switch(" p="@, f.perms)
        + switch(" t="@, f.times)
        + switch(" g="@, f.group)
        + switch(" o="@, f.owner)
        + switch(" D="@, f.devices)
        + switch(" q="@, f.quiet)
        + switch(" c="@, f.checksum)
        + switch(" u="@, f.update)
}

/// The other options of the line for debugging.
pub open spec fn more_switches(f: ServerFlags) -> Seq<char> {
    Seq::empty()
        + switch(" H="@, f.hard_links)
        + switch(" L="@, f.copy_links)
        + switch(" k="@, f.keep_dirlinks)
        + switch(" W="@, f.whole_file)
        + switch(" n="@, f.dry_run)
        + switch(" R="@, f.relative)
        + switch(" i="@, f.itemize)
        + switch(" f="@, f.fuzzy)
        + switch(" x="@, f.xattrs)
        + switch(" C="@, f.cvs_exclude)
        + switch(" I="@, f.ignore_times)
}

/// The options in one line, for debugging.
pub open spec fn flags_text(f: ServerFlags) -> Seq<char> {
    Seq::empty() + "ServerFlags { v="@ + decimal(f.verbose as nat) + first_switches(f)
        + more_switches(f) + " unknown="@ + debug_text_of(f.unknown@) + " e_tail="@ + debug_text_of(f.e_tail@) + " }"@
}

spec fn holds_text(s: String, want: Seq<char>) -> bool {
    s@ == want
}

spec fn longer(before: String, after: String, piece: Seq<char>) -> bool {
    after@ == before@ + piece
}

fn push_switch(s: &mut String, name: &str, b: bool)
    ensures
        longer(*old(s), *final(s), switch(name@, b)),
{
    s.push_str(name);
    if b {
        s.push_str("true");
    } else {
        s.push_str("false");
    }
    assert(s@ =~= old(s)@ + switch(name@, b));
}

/// The letters of `a`, and those of `b` that are not among them yet.
fn join_letters(a: &str, b: &str) -> (s: String)
    ensures
        s@ == joined_letters(a@, b@),
{
    let mut all: Vec<char> = chars_of(a);
    let more: Vec<char> = chars_of(b);
    let mut rest: &[char] = more.as_slice();
    while rest.len() > 0
        invariant
            joined_letters(all@, rest@) == joined_letters(a@, b@),
        decreases rest@.len(),
    {
        let c: char = rest[0];
        let ghost left = rest@;
        proof {
            lemma_index_from(all@, c, 0);
        }
        match find_char(all.as_slice(), c) {
            Some(i) => {
                assert(all@[i as int] == c);
            },
            None => {
                all.push(c);
            },
        }
        rest = rest.split_at(1).1;
        assert(rest@ =~= left.skip(1));
    }
    string_of(all.as_slice())
}

/// The letters in some letters that are no options.
fn find_unknown(letters: &[char]) -> (s: String)
    ensures
        s@ == unknown_letters(letters@),
{
    let options: Vec<char> = chars_of("vqarlptgoDcuHLkWnRifCIsxz");
    let mut s: String = String::new();
    let mut i: usize = 0;
    assert(s@ =~= unknown_letters(letters@.take(0)));
    while i < letters.len()
        invariant
            i <= letters@.len(),
            options@ == "vqarlptgoDcuHLkWnRifCIsxz"@,
            s@ == unknown_letters(letters@.take(i as int)),
        decreases letters@.len() - i,
    {
        let ghost next = letters@.take(i + 1);
        assert(next.drop_last() =~= letters@.take(i as int));
        let c: char = letters[i];
        proof {
            lemma_index_from(options@, c, 0);
        }
        match find_char(options.as_slice(), c) {
            Some(k) => {
                assert(options@[k as int] == c);
            },
            None => {
                push_unknown(&mut s, c);
            },
        }
        i = i + 1;
    }
    assert(letters@.take(i as int) =~= letters@);
    s
}

fn push_unknown(s: &mut String, c: char)
    ensures
        final(s)@ == old(s)@ + unknown_letter(c),
{
    let mut one: String = String::new();
    one.push(c);
    assert(one@ =~= seq![c]);
    let b: &[u8] = one.as_str().as_bytes();
    let mut i: usize = 0;
    assert(s@ =~= old(s)@ + unknown_letter(c).take(0));
    while i < b.len()
        invariant
            i <= b@.len(),
            b@ == encode_utf8(seq![c]),
            s@ == old(s)@ + unknown_letter(c).take(i as int),
        decreases b@.len() - i,
    {
        s.push(b[i] as char);
        i = i + 1;
        assert(s@ =~= old(s)@ + unknown_letter(c).take(i as int));
    }
    assert(unknown_letter(c).take(i as int) =~= unknown_letter(c));
}

/// The letters of a word, and what follows the first `e`.
fn split_word(arg: &str) -> (res: (Vec<char>, String))
    ensures
        res.0@ == word_letters(arg@),
        res.1@ == word_tail(arg@),
{
    let chars: Vec<char> = chars_of(arg);
    if chars.len() == 0 || chars[0] != '-' {
        return (Vec::new(), String::new());
    }
    let rest: &[char] = chars.as_slice().split_at(1).1;
    assert(rest@ =~= arg@.skip(1));
    proof {
        lemma_index_from(rest@, 'e', 0);
    }
    match find_char(rest, 'e') {
        Some(i) => {
            let (letters, tail) = rest.split_at(i);
            assert(letters@ =~= rest@.take(i as int));
            let tail: &[char] = tail.split_at(1).1;
            assert(tail@ =~= rest@.skip(i + 1));
            (slice_to_vec(letters), string_of(tail))
        },
        None => (slice_to_vec(rest), String::new()),
    }
}

/// Reads a word of letters such as `-vlogDtpre.iLsfxC`.
pub fn parse_server_flags(arg: &str) -> (f: ServerFlags)
    requires
        arg@.len() <= u32::MAX,
    ensures
        holds_letters(f, seq![word_letters(arg@)]),
        !f.delete,
        f.unknown@ == unknown_letters(word_letters(arg@)),
        f.e_tail@ == word_tail(arg@),
{
    let (letters, tail) = split_word(arg);
    let unknown: String = find_unknown(letters.as_slice());
    let ghost want = seq![word_letters(arg@)];
    let mut words: Vec<Vec<char>> = Vec::new();
    words.push(letters);
    proof {
        lemma_word_len(arg@);
        reveal_with_fuel(total_len, 2);
        assert(want.drop_last() =~= Seq::<Seq<char>>::empty());
    }
    flags_of(&words, Ghost(want), false, unknown, tail)
}

proof fn lemma_word_len(arg: Seq<char>)
    ensures
        word_letters(arg).len() <= arg.len(),
{
    if arg.len() > 0 {
        lemma_index_from(arg.skip(1), 'e', 0);
    }
}

proof fn lemma_words_len(args: Seq<Seq<char>>)
    ensures
        total_len(words_in(args)) <= total_len(args),
    decreases args.len(),
{
    if args.len() > 0 {
        lemma_words_len(args.drop_last());
        lemma_word_len(args.last());
        let before = words_in(args.drop_last());
        if is_word(args.last()) {
            assert(before.push(word_letters(args.last())).drop_last() =~= before);
        }
    }
}

/// Reads all the arguments that the far end was started with: its options,
/// and the arguments that are no options.
pub fn parse_server_argv(args: &[String]) -> (res: (ServerFlags, Vec<String>))
    requires
        total_len(texts(args@)) <= u32::MAX,
    ensures
        holds_letters(res.0, words_in(texts(args@))),
        res.0.delete == delete_given(texts(args@)),
        res.0.unknown@ == unknown_given(texts(args@)),
        res.0.e_tail@ == tail_given(texts(args@)),
        texts(res.1@) == path_args(texts(args@)),
{
    let ghost all = texts(args@);
    let mut words: Vec<Vec<char>> = Vec::new();
    let mut delete: bool = false;
    let mut unknown: String = String::new();
    let mut tail: String = String::new();
    let mut paths: Vec<String> = Vec::new();
    let mut i: usize = 0;
    assert(all.take(0) =~= Seq::<Seq<char>>::empty());
    assert(texts(paths@) =~= Seq::<Seq<char>>::empty());
    while i < args.len()
        invariant
            i <= args@.len(),
            all == texts(args@),
            holds_words(words@, words_in(all.take(i as int))),
            delete == delete_given(all.take(i as int)),
            unknown@ == unknown_given(all.take(i as int)),
            tail@ == tail_given(all.take(i as int)),
            texts(paths@) == path_args(all.take(i as int)),
        decreases args@.len() - i,
    {
        let s: &String = &args[i];
        let ghost before = all.take(i as int);
        let ghost next = all.take(i + 1);
        assert(next.drop_last() =~= before);
        assert(next.last() == s@);
        proof {
            lemma_delete_given(next);
        }
        let chars: Vec<char> = chars_of(s.as_str());
        if starts_with_text(chars.as_slice(), "--") {
            let n: usize = chars_of("--").len();
            let name: &[char] = chars.as_slice().split_at(n).1;
            assert(name@ =~= s@.skip("--"@.len() as int));
            if is_text(name, "delete") || is_text(name, "delete-before") || is_text(
                name,
                "delete-during",
            ) || is_text(name, "delete-after") {
                delete = true;
            }
        } else if chars.len() > 1 && chars[0] == '-' {
            let (letters, more) = split_word(s.as_str());
            let found: String = find_unknown(letters.as_slice());
            let joined: String = join_letters(unknown.as_str(), found.as_str());
            unknown = joined;
            if more.as_str().unicode_len() > 0 {
                tail = more;
            }
            words.push(letters);
        } else {
            let p: String = s.clone();
            proof {
                lemma_texts_push(paths@, p);
            }
            paths.push(p);
        }
        i = i + 1;
    }
    assert(all.take(i as int) =~= all);
    proof {
        lemma_words_len(all);
    }
    (flags_of(&words, Ghost(words_in(all)), delete, unknown, tail), paths)
}

proof fn lemma_delete_given(args: Seq<Seq<char>>)
    requires
        args.len() > 0,
    ensures
        delete_given(args) == (delete_given(args.drop_last()) || (is_long(args.last())
            && asks_delete(args.last().skip("--"@.len() as int)))),
{
    if delete_given(args.drop_last()) {
        let i = choose|i: int|
            0 <= i < args.drop_last().len() && is_long(#[trigger] args.drop_last()[i])
                && asks_delete(args.drop_last()[i].skip("--"@.len() as int));
        assert(is_long(args[i]));
    }
    if delete_given(args) {
        let i = choose|i: int|
            0 <= i < args.len() && is_long(#[trigger] args[i]) && asks_delete(
                args[i].skip("--"@.len() as int),
            );
        if i < args.len() - 1 {
            assert(is_long(args.drop_last()[i]));
        }
    }
}

proof fn lemma_total_len(args: Seq<Seq<char>>, k: int)
    requires
        0 <= k <= args.len(),
    ensures
        total_len(args.take(k)) <= total_len(args),
    decreases args.len() - k,
{
    if k < args.len() {
        let next = args.take(k + 1);
        assert(next.drop_last() =~= args.take(k));
        lemma_total_len(args, k + 1);
    } else {
        assert(args.take(k) =~= args);
    }
}

/// Taking `a` apart again changes nothing.
pub proof fn flags_expand_once(f: ServerFlags)
    ensures
        flags_expanded(flags_expanded(f)) == flags_expanded(f),
{
}

/// What is read has `a` taken apart already.
pub proof fn read_flags_are_expanded(f: ServerFlags, words: Seq<Seq<char>>)
    requires
        holds_letters(f, words),
    ensures
        flags_expanded(f) == f,
{
}

} // verus!
