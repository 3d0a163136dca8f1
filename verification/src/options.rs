//! Command-line options, what they ask of the far end, and remote paths.

use vstd::prelude::*;

use crate::protocol::types::opt_text;
use crate::text::{
    begins_with, chars_of, find_char, first_index, last_index, lemma_index_from, lemma_texts_push,
    parse_number, parsed_number, push_decimal, push_signed, rfind_char, signed_decimal,
    starts_with_text, string_of, text, texts,
};

verus! {

/// The options of a run.
#[derive(Debug, Clone, Default)]
pub struct Options {
    /// How often `-v` was given.
    pub verbose: u8,
    pub quiet: bool,
    /// Stands for `-rlptgoD`.
    pub archive: bool,
    pub recursive: bool,
    pub links: bool,
    pub copy_links: bool,
    pub copy_dirlinks: bool,
    pub keep_dirlinks: bool,
    pub perms: bool,
    pub executability: bool,
    pub acls: bool,
    pub xattrs: bool,
    pub owner: bool,
    pub group: bool,
    pub numeric_ids: bool,
    pub devices: bool,
    pub specials: bool,
    pub times: bool,
    pub omit_dir_times: bool,
    pub omit_link_times: bool,
    pub checksum: bool,
    pub update: bool,
    pub itemize_changes: bool,
    pub delete: bool,
    pub delete_before: bool,
    pub delete_during: bool,
    pub delete_after: bool,
    pub delete_excluded: bool,
    pub force: bool,
    pub max_delete: Option<i32>,
    pub exclude: Vec<String>,
    pub exclude_from: Vec<String>,
    /// Patterns of `--include`.
    pub include_patterns: Vec<String>,
    pub include_from: Vec<String>,
    pub filter: Vec<String>,
    pub cvs_exclude: bool,
    pub compress: bool,
    pub compress_level: Option<i32>,
    pub whole_file: bool,
    pub no_whole_file: bool,
    pub append: bool,
    pub inplace: bool,
    pub partial: bool,
    pub partial_dir: Option<String>,
    pub rsh: Option<String>,
    pub rsync_path: Option<String>,
    /// Whether this process is the far end of a connection.
    pub server: bool,
    /// Whether the far end sends.
    pub sender: bool,
    pub daemon: bool,
    pub config: Option<String>,
    pub port: Option<u16>,
    pub no_detach: bool,
    pub hard_links: bool,
    pub backup: bool,
    pub backup_dir: Option<String>,
    pub suffix: Option<String>,
    pub relative: bool,
    pub no_implied_dirs: bool,
    pub progress: bool,
    pub partial_progress: bool,
    pub stats: bool,
    pub dry_run: bool,
    pub max_size: Option<String>,
    pub min_size: Option<String>,
    pub protocol: Option<u32>,
    pub checksum_choice: Option<String>,
    pub write_batch: Option<String>,
    pub read_batch: Option<String>,
    pub timeout: Option<u32>,
    pub bwlimit: Option<u64>,
    pub fuzzy: bool,
    pub prune_empty_dirs: bool,
    pub one_file_system: bool,
    pub mkpath: bool,
    pub ignore_errors: bool,
    pub ignore_existing: bool,
    pub ignore_non_existing: bool,
    pub remove_source_files: bool,
    pub list_only: bool,
    /// Source paths and the destination.
    pub args: Vec<String>,
}

/// Why the paths on the command line cannot be used.
#[derive(Debug, Clone, Copy, PartialEq, Eq, Structural)]
pub enum PathError {
    /// Fewer than two paths were given; this many were.
    TooFewPaths(usize),
}

// ---------------------------------------------------------------------------
// Options for the far end
// ---------------------------------------------------------------------------

/// The character `c` where `b` holds.
pub open spec fn char_if(b: bool, c: char) -> Seq<char> {
    if b {
        seq![c]
    } else {
        Seq::empty()
    }
}

/// The argument `s` where `b` holds.
pub open spec fn arg_if(b: bool, s: Seq<char>) -> Seq<Seq<char>> {
    if b {
        seq![s]
    } else {
        Seq::empty()
    }
}

/// The argument with a text value, where there is a value.
pub open spec fn arg_text(name: Seq<char>, v: Option<Seq<char>>) -> Seq<Seq<char>> {
    match v {
        Some(s) => seq![name + s],
        None => Seq::empty(),
    }
}

/// The argument with a number, where there is one.
pub open spec fn arg_number(name: Seq<char>, v: Option<int>) -> Seq<Seq<char>> {
    match v {
        Some(n) => seq![name + signed_decimal(n)],
        None => Seq::empty(),
    }
}

/// One argument for each of some values.
pub open spec fn arg_each(name: Seq<char>, vs: Seq<Seq<char>>) -> Seq<Seq<char>> {
    Seq::new(vs.len(), |i: int| name + vs[i])
}

/// Two arguments for each of some values: the name, then the value.
pub open spec fn arg_pairs(name: Seq<char>, vs: Seq<Seq<char>>) -> Seq<Seq<char>> {
    Seq::new(
        2 * vs.len(),
        |i: int|
            if i % 2 == 0 {
                name
            } else {
                vs[i / 2]
            },
    )
}

/// The number in an option.
pub open spec fn opt_i32(v: Option<i32>) -> Option<int> {
    match v {
        Some(n) => Some(n as int),
        None => None,
    }
}

/// The number in an option.
pub open spec fn opt_u32(v: Option<u32>) -> Option<int> {
    match v {
        Some(n) => Some(n as int),
        None => None,
    }
}

/// The number in an option.
pub open spec fn opt_u64(v: Option<u64>) -> Option<int> {
    match v {
        Some(n) => Some(n as int),
        None => None,
    }
}

/// The letters that `-a` stands for, or the letter itself.
pub open spec fn archive_letters(o: Options) -> Seq<char> {
    if o.archive {
        seq!['a']
    } else {
        Seq::empty() + char_if(o.recursive, 'r') + char_if(o.links, 'l') + char_if(o.perms, 'p')
            + char_if(o.times, 't') + char_if(o.group, 'g') + char_if(o.owner, 'o')
            + char_if(o.devices, 'D')
    }
}

/// The letters about what is transferred.
pub open spec fn transfer_letters(o: Options) -> Seq<char> {
    Seq::empty() + char_if(o.checksum, 'c') + char_if(o.update, 'u') + char_if(o.hard_links, 'H')
        + char_if(o.copy_links, 'L') + char_if(o.keep_dirlinks, 'k') + char_if(o.whole_file, 'W')
        + char_if(o.dry_run, 'n')
}

/// The letters about how it is transferred.
pub open spec fn mode_letters(o: Options) -> Seq<char> {
    Seq::empty() + char_if(o.relative, 'R') + char_if(o.backup, 'b') + char_if(
        o.one_file_system,
        'x',
    ) + char_if(o.itemize_changes, 'i') + char_if(o.omit_dir_times, 'O') + char_if(
        o.prune_empty_dirs,
        'm',
    ) + char_if(o.fuzzy, 'y') + char_if(o.compress, 'z')
}

/// The one-letter options in one word.
pub open spec fn flag_word(o: Options) -> Seq<char> {
    seq!['-'] + Seq::new(o.verbose as nat, |i: int| 'v') + char_if(o.quiet, 'q') + archive_letters(o)
        + transfer_letters(o) + mode_letters(o)
}

/// The options about deleting.
pub open spec fn delete_args(o: Options) -> Seq<Seq<char>> {
    Seq::empty()
        + arg_if(o.delete, "--delete"@)
        + arg_if(o.delete_before, "--delete-before"@)
        + arg_if(o.delete_during, "--delete-during"@)
        + arg_if(o.delete_after, "--delete-after"@)
        + arg_if(o.delete_excluded, "--delete-excluded"@)
        + arg_if(o.force, "--force"@)
        + arg_number("--max-delete="@, opt_i32(o.max_delete))
}

/// The options about links, directories and partial files.
pub open spec fn path_args(o: Options) -> Seq<Seq<char>> {
    Seq::empty()
        + arg_if(o.numeric_ids, "--numeric-ids"@)
        + arg_if(o.copy_dirlinks, "--copy-dirlinks"@)
        + arg_if(o.no_implied_dirs, "--no-implied-dirs"@)
        + arg_if(o.partial, "--partial"@)
        + arg_text("--partial-dir="@, opt_text(o.partial_dir))
        + arg_if(o.inplace, "--inplace"@)
        + arg_if(o.append, "--append"@)
}

/// The options about reports and limits.
pub open spec fn limit_args(o: Options) -> Seq<Seq<char>> {
    Seq::empty()
        + arg_if(o.no_whole_file, "--no-whole-file"@)
        + arg_if(o.progress, "--progress"@)
        + arg_if(o.stats, "--stats"@)
        + arg_text("--max-size="@, opt_text(o.max_size))
        + arg_text("--min-size="@, opt_text(o.min_size))
        + arg_number("--bwlimit="@, opt_u64(o.bwlimit))
        + arg_number("--timeout="@, opt_u32(o.timeout))
}

/// The options about the protocol and times.
pub open spec fn protocol_args(o: Options) -> Seq<Seq<char>> {
    Seq::empty()
        + arg_text("--checksum-choice="@, opt_text(o.checksum_choice))
        + arg_number("--protocol="@, opt_u32(o.protocol))
        + arg_number("--compress-level="@, opt_i32(o.compress_level))
        + arg_if(o.omit_link_times, "--omit-link-times"@)
        + arg_if(o.executability, "--executability"@)
        + arg_if(o.acls, "--acls"@)
}

/// The options about attributes and existing files.
pub open spec fn attribute_args(o: Options) -> Seq<Seq<char>> {
    Seq::empty()
        + arg_if(o.xattrs, "--xattrs"@)
        + arg_if(o.specials && !o.archive && !o.devices, "--specials"@)
        + arg_if(o.ignore_errors, "--ignore-errors"@)
        + arg_if(o.ignore_existing, "--ignore-existing"@)
        + arg_if(o.ignore_non_existing, "--ignore-non-existing"@)
}

/// The remaining options with a name of their own.
pub open spec fn other_args(o: Options) -> Seq<Seq<char>> {
    Seq::empty()
        + arg_if(o.remove_source_files, "--remove-source-files"@)
        + arg_if(o.list_only, "--list-only"@)
        + arg_if(o.mkpath, "--mkpath"@)
        + arg_text("--suffix="@, opt_text(o.suffix))
        + arg_text("--backup-dir="@, opt_text(o.backup_dir))
        + arg_if(o.cvs_exclude, "--cvs-exclude"@)
}

/// The options that select files.
pub open spec fn filter_args(o: Options) -> Seq<Seq<char>> {
    arg_each("--exclude="@, texts(o.exclude@)) + arg_each("--include="@, texts(o.include_patterns@))
        + arg_pairs("--filter"@, texts(o.filter@))
}

/// The options that are passed to the far end.
pub open spec fn server_args_of(o: Options) -> Seq<Seq<char>> {
    arg_if(flag_word(o).len() > 1, flag_word(o)) + delete_args(o) + path_args(o) + limit_args(o)
        + protocol_args(o) + attribute_args(o) + other_args(o) + filter_args(o)
}

fn push_char_if(s: &mut String, b: bool, c: char)
    ensures
        longer(*old(s), *final(s), char_if(b, c)),
{
    if b {
        s.push(c);
    }
    assert(s@ =~= old(s)@ + char_if(b, c));
}

fn push_arg_if(args: &mut Vec<String>, b: bool, s: &str)
    ensures
        grown(old(args)@, final(args)@, arg_if(b, s@)),
{
    if b {
        let t: String = text(s);
        proof {
            lemma_texts_push(args@, t);
        }
        args.push(t);
    }
    assert(texts(args@) =~= texts(old(args)@) + arg_if(b, s@));
}

fn push_arg_text(args: &mut Vec<String>, name: &str, v: &Option<String>)
    ensures
        grown(old(args)@, final(args)@, arg_text(name@, opt_text(*v))),
{
    match v {
        Some(s) => {
            let mut t: String = text(name);
            t.push_str(s.as_str());
            proof {
                lemma_texts_push(args@, t);
            }
            args.push(t);
        },
        None => {},
    }
    assert(texts(args@) =~= texts(old(args)@) + arg_text(name@, opt_text(*v)));
}

fn push_arg_number(args: &mut Vec<String>, name: &str, v: Option<i128>)
    requires
        v matches Some(n) ==> i64::MIN <= n <= u64::MAX,
    ensures
        grown(
            old(args)@,
            final(args)@,
            arg_number(
                name@,
                match v {
                    Some(n) => Some(n as int),
                    None => None,
                },
            ),
        ),
{
    match v {
        Some(n) => {
            let mut t: String = text(name);
            if n < 0 {
                push_signed(&mut t, n as i64);
            } else {
                push_decimal(&mut t, n as u64);
            }
            proof {
                lemma_texts_push(args@, t);
            }
            args.push(t);
            assert(texts(args@) =~= texts(old(args)@) + arg_number(name@, Some(n as int)));
        },
        None => {
            assert(texts(args@) =~= texts(old(args)@) + arg_number(name@, None));
        },
    }
}

fn push_arg_each(args: &mut Vec<String>, name: &str, vs: &Vec<String>)
    ensures
        texts(final(args)@) == texts(old(args)@) + arg_each(name@, texts(vs@)),
{
    let ghost start = texts(args@);
    let ghost want = arg_each(name@, texts(vs@));
    let mut i: usize = 0;
    assert(texts(args@) =~= start + want.take(0));
    while i < vs.len()
        invariant
            i <= vs@.len(),
            want == arg_each(name@, texts(vs@)),
            texts(args@) == start + want.take(i as int),
        decreases vs@.len() - i,
    {
        let mut t: String = text(name);
        t.push_str(vs[i].as_str());
        proof {
            lemma_texts_push(args@, t);
        }
        args.push(t);
        i = i + 1;
        assert(texts(args@) =~= start + want.take(i as int));
    }
    assert(want.take(i as int) =~= want);
}

fn push_arg_pairs(args: &mut Vec<String>, name: &str, vs: &Vec<String>)
    ensures
        texts(final(args)@) == texts(old(args)@) + arg_pairs(name@, texts(vs@)),
{
    let ghost start = texts(args@);
    let ghost want = arg_pairs(name@, texts(vs@));
    let mut i: usize = 0;
    assert(texts(args@) =~= start + want.take(0));
    while i < vs.len()
        invariant
            i <= vs@.len(),
            want == arg_pairs(name@, texts(vs@)),
            texts(args@) == start + want.take(2 * i),
        decreases vs@.len() - i,
    {
        let n: String = text(name);
        let t: String = vs[i].clone();
        proof {
            lemma_texts_push(args@, n);
            lemma_texts_push(args@.push(n), t);
        }
        args.push(n);
        args.push(t);
        assert(want[2 * i] == name@);
        assert(want[2 * i + 1] == texts(vs@)[i as int]);
        i = i + 1;
        assert(texts(args@) =~= start + want.take(2 * i));
    }
    assert(want.take(2 * i) =~= want);
}

/// Adds the strings of `more` behind those of `args`.
fn append_args(args: &mut Vec<String>, more: Vec<String>)
    ensures
        grown(old(args)@, final(args)@, texts(more@)),
{
    let mut rest: Vec<String> = more;
    args.append(&mut rest);
    assert(texts(args@) =~= texts(old(args)@) + texts(more@));
}

fn widen_i32(v: Option<i32>) -> (w: Option<i128>)
    ensures
        match (v, w) {
            (Some(a), Some(b)) => a as int == b as int,
            (None, None) => true,
            _ => false,
        },
{
    match v {
        Some(n) => Some(n as i128),
        None => None,
    }
}

fn widen_u32(v: Option<u32>) -> (w: Option<i128>)
    ensures
        match (v, w) {
            (Some(a), Some(b)) => a as int == b as int,
            (None, None) => true,
            _ => false,
        },
{
    match v {
        Some(n) => Some(n as i128),
        None => None,
    }
}

fn widen_u64(v: Option<u64>) -> (w: Option<i128>)
    ensures
        match (v, w) {
            (Some(a), Some(b)) => a as int == b as int,
            (None, None) => true,
            _ => false,
        },
{
    match v {
        Some(n) => Some(n as i128),
        None => None,
    }
}

/// Whether `piece` was added behind some strings.
spec fn grown(before: Seq<String>, after: Seq<String>, piece: Seq<Seq<char>>) -> bool {
    texts(after) == texts(before) + piece
}

/// Whether `piece` was added behind a string.
spec fn longer(before: String, after: String, piece: Seq<char>) -> bool {
    after@ == before@ + piece
}

/// Whether some strings hold the texts `want`.
spec fn hold_texts(v: Seq<String>, want: Seq<Seq<char>>) -> bool {
    texts(v) == want
}

/// Whether a string holds the text `want`.
spec fn holds_text(s: String, want: Seq<char>) -> bool {
    s@ == want
}

/// Paths of a transfer: the sources and the destination.
pub open spec fn split_paths(args: Seq<Seq<char>>, reads_batch: bool) -> Option<
    (Seq<Seq<char>>, Seq<char>),
> {
    if reads_batch && args.len() == 1 {
        Some((Seq::empty(), args[0]))
    } else if args.len() < 2 {
        None
    } else {
        Some((args.drop_last(), args.last()))
    }
}

/// The options with `-a` taken apart.
pub open spec fn archive_expanded(before: Options, after: Options) -> bool {
    if before.archive {
        after == (Options {
            recursive: true,
            links: true,
            perms: true,
            times: true,
            group: true,
            owner: true,
            devices: true,
            specials: true,
            ..before
        })
    } else {
        after == before
    }
}

impl Options {
    /// Takes `-a` apart into the options it stands for.
    pub fn expand_archive(&mut self)
        ensures
            archive_expanded(*old(self), *final(self)),
    {
        if self.archive {
            self.recursive = true;
            self.links = true;
            self.perms = true;
            self.times = true;
            self.group = true;
            self.owner = true;
            self.devices = true;
            self.specials = true;
        }
    }

    /// The source paths and the destination.
    pub fn parse_paths(&self) -> (res: Result<(Vec<String>, String), PathError>)
        ensures
            match res {
                Ok((sources, dest)) => split_paths(texts(self.args@), self.read_batch is Some)
                    == Some((texts(sources@), dest@)),
                Err(e) => split_paths(texts(self.args@), self.read_batch is Some) is None && e
                    == PathError::TooFewPaths(self.args@.len() as usize),
            },
    {
        let n: usize = self.args.len();
        let reads_batch: bool = match &self.read_batch {
            Some(_) => true,
            None => false,
        };
        let mut sources: Vec<String> = Vec::new();
        if reads_batch && n == 1 {
            assert(texts(sources@) =~= Seq::<Seq<char>>::empty());
            return Ok((sources, self.args[0].clone()));
        }
        if n < 2 {
            return Err(PathError::TooFewPaths(n));
        }
        let mut i: usize = 0;
        assert(texts(sources@) =~= texts(self.args@).take(0));
        while i < n - 1
            invariant
                i <= n - 1,
                n == self.args@.len() >= 2,
                texts(sources@) == texts(self.args@).take(i as int),
            decreases n - i,
        {
            let s: String = self.args[i].clone();
            proof {
                lemma_texts_push(sources@, s);
            }
            sources.push(s);
            i = i + 1;
            assert(texts(sources@) =~= texts(self.args@).take(i as int));
        }
        assert(texts(sources@) =~= texts(self.args@).drop_last());
        Ok((sources, self.args[n - 1].clone()))
    }

    /// The options to pass to the far end.
    pub fn server_args(&self) -> (args: Vec<String>)
        ensures
            texts(args@) == server_args_of(*self),
    {
        let word: String = self.flag_word();
        let mut args: Vec<String> = Vec::new();
        assert(texts(args@) =~= Seq::<Seq<char>>::empty());
        let any: bool = chars_of(word.as_str()).len() > 1;
        push_arg_if(&mut args, any, word.as_str());
        assert(texts(args@) =~= arg_if(flag_word(*self).len() > 1, flag_word(*self)));
        append_args(&mut args, self.delete_args());
        append_args(&mut args, self.path_args());
        append_args(&mut args, self.limit_args());
        append_args(&mut args, self.protocol_args());
        append_args(&mut args, self.attribute_args());
        append_args(&mut args, self.other_args());
        append_args(&mut args, self.filter_args());
        args
    }

    fn flag_word(&self) -> (s: String)
        ensures
            holds_text(s, flag_word(*self)),
    {
        let mut s: String = String::new();
        s.push('-');
        let ghost head = s@;
        let mut i: u8 = 0;
        assert(s@ =~= head + Seq::new(0, |k: int| 'v'));
        while i < self.verbose
            invariant
                i <= self.verbose,
                s@ == head + Seq::new(i as nat, |k: int| 'v'),
            decreases self.verbose - i,
        {
            s.push('v');
            i = i + 1;
            assert(s@ =~= head + Seq::new(i as nat, |k: int| 'v'));
        }
        assert(s@ =~= seq!['-'] + Seq::new(self.verbose as nat, |k: int| 'v'));
        push_char_if(&mut s, self.quiet, 'q');
        s.push_str(self.archive_letters().as_str());
        s.push_str(self.transfer_letters().as_str());
        s.push_str(self.mode_letters().as_str());
        s
    }

    fn transfer_letters(&self) -> (s: String)
        ensures
            holds_text(s, transfer_letters(*self)),
    {
        let mut s: String = String::new();
        push_char_if(&mut s, self.checksum, 'c');
        push_char_if(&mut s, self.update, 'u');
        push_char_if(&mut s, self.hard_links, 'H');
        push_char_if(&mut s, self.copy_links, 'L');
        push_char_if(&mut s, self.keep_dirlinks, 'k');
        push_char_if(&mut s, self.whole_file, 'W');
        push_char_if(&mut s, self.dry_run, 'n');
        s
    }

    fn mode_letters(&self) -> (s: String)
        ensures
            holds_text(s, mode_letters(*self)),
    {
        let mut s: String = String::new();
        push_char_if(&mut s, self.relative, 'R');
        push_char_if(&mut s, self.backup, 'b');
        push_char_if(&mut s, self.one_file_system, 'x');
        push_char_if(&mut s, self.itemize_changes, 'i');
        push_char_if(&mut s, self.omit_dir_times, 'O');
        push_char_if(&mut s, self.prune_empty_dirs, 'm');
        push_char_if(&mut s, self.fuzzy, 'y');
        push_char_if(&mut s, self.compress, 'z');
        s
    }

    fn archive_letters(&self) -> (s: String)
        ensures
            holds_text(s, archive_letters(*self)),
    {
        let mut s: String = String::new();
        if self.archive {
            s.push('a');
            assert(s@ =~= seq!['a']);
        } else {
            push_char_if(&mut s, self.recursive, 'r');
            push_char_if(&mut s, self.links, 'l');
            push_char_if(&mut s, self.perms, 'p');
            push_char_if(&mut s, self.times, 't');
            push_char_if(&mut s, self.group, 'g');
            push_char_if(&mut s, self.owner, 'o');
            push_char_if(&mut s, self.devices, 'D');
        }
        s
    }

    fn delete_args(&self) -> (args: Vec<String>)
        ensures
            hold_texts(args@, delete_args(*self)),
    {
        let mut args: Vec<String> = Vec::new();
        assert(texts(args@) =~= Seq::<Seq<char>>::empty());
        push_arg_if(&mut args, self.delete, "--delete");
        push_arg_if(&mut args, self.delete_before, "--delete-before");
        push_arg_if(&mut args, self.delete_during, "--delete-during");
        push_arg_if(&mut args, self.delete_after, "--delete-after");
        push_arg_if(&mut args, self.delete_excluded, "--delete-excluded");
        push_arg_if(&mut args, self.force, "--force");
        push_arg_number(&mut args, "--max-delete=", widen_i32(self.max_delete));
        args
    }

    fn path_args(&self) -> (args: Vec<String>)
        ensures
            hold_texts(args@, path_args(*self)),
    {
        let mut args: Vec<String> = Vec::new();
        assert(texts(args@) =~= Seq::<Seq<char>>::empty());
        push_arg_if(&mut args, self.numeric_ids, "--numeric-ids");
        push_arg_if(&mut args, self.copy_dirlinks, "--copy-dirlinks");
        push_arg_if(&mut args, self.no_implied_dirs, "--no-implied-dirs");
        push_arg_if(&mut args, self.partial, "--partial");
        push_arg_text(&mut args, "--partial-dir=", &self.partial_dir);
        push_arg_if(&mut args, self.inplace, "--inplace");
        push_arg_if(&mut args, self.append, "--append");
        args
    }

    fn limit_args(&self) -> (args: Vec<String>)
        ensures
            hold_texts(args@, limit_args(*self)),
    {
        let mut args: Vec<String> = Vec::new();
        assert(texts(args@) =~= Seq::<Seq<char>>::empty());
        push_arg_if(&mut args, self.no_whole_file, "--no-whole-file");
        push_arg_if(&mut args, self.progress, "--progress");
        push_arg_if(&mut args, self.stats, "--stats");
        push_arg_text(&mut args, "--max-size=", &self.max_size);
        push_arg_text(&mut args, "--min-size=", &self.min_size);
        push_arg_number(&mut args, "--bwlimit=", widen_u64(self.bwlimit));
        push_arg_number(&mut args, "--timeout=", widen_u32(self.timeout));
        args
    }

    fn protocol_args(&self) -> (args: Vec<String>)
        ensures
            hold_texts(args@, protocol_args(*self)),
    {
        let mut args: Vec<String> = Vec::new();
        assert(texts(args@) =~= Seq::<Seq<char>>::empty());
        push_arg_text(&mut args, "--checksum-choice=", &self.checksum_choice);
        push_arg_number(&mut args, "--protocol=", widen_u32(self.protocol));
        push_arg_number(&mut args, "--compress-level=", widen_i32(self.compress_level));
        push_arg_if(&mut args, self.omit_link_times, "--omit-link-times");
        push_arg_if(&mut args, self.executability, "--executability");
        push_arg_if(&mut args, self.acls, "--acls");
        args
    }

    fn attribute_args(&self) -> (args: Vec<String>)
        ensures
            hold_texts(args@, attribute_args(*self)),
    {
        let mut args: Vec<String> = Vec::new();
        assert(texts(args@) =~= Seq::<Seq<char>>::empty());
        push_arg_if(&mut args, self.xattrs, "--xattrs");
        push_arg_if(&mut args, self.specials && !self.archive && !self.devices, "--specials");
        push_arg_if(&mut args, self.ignore_errors, "--ignore-errors");
        push_arg_if(&mut args, self.ignore_existing, "--ignore-existing");
        push_arg_if(&mut args, self.ignore_non_existing, "--ignore-non-existing");
        args
    }

    fn other_args(&self) -> (args: Vec<String>)
        ensures
            hold_texts(args@, other_args(*self)),
    {
        let mut args: Vec<String> = Vec::new();
        assert(texts(args@) =~= Seq::<Seq<char>>::empty());
        push_arg_if(&mut args, self.remove_source_files, "--remove-source-files");
        push_arg_if(&mut args, self.list_only, "--list-only");
        push_arg_if(&mut args, self.mkpath, "--mkpath");
        push_arg_text(&mut args, "--suffix=", &self.suffix);
        push_arg_text(&mut args, "--backup-dir=", &self.backup_dir);
        push_arg_if(&mut args, self.cvs_exclude, "--cvs-exclude");
        args
    }

    fn filter_args(&self) -> (args: Vec<String>)
        ensures
            hold_texts(args@, filter_args(*self)),
    {
        let mut args: Vec<String> = Vec::new();
        assert(texts(args@) =~= Seq::<Seq<char>>::empty());
        push_arg_each(&mut args, "--exclude=", &self.exclude);
        assert(texts(args@) =~= arg_each("--exclude="@, texts(self.exclude@)));
        push_arg_each(&mut args, "--include=", &self.include_patterns);
        push_arg_pairs(&mut args, "--filter", &self.filter);
        args
    }

    /// Whether no path names a remote host.
    pub fn is_local(&self) -> (local: bool)
        ensures
            local == match split_paths(texts(self.args@), self.read_batch is Some) {
                Some((sources, dest)) => remote_of(dest) is None && forall|i: int|
                    0 <= i < sources.len() ==> remote_of(#[trigger] sources[i]) is None,
                None => true,
            },
    {
        match self.parse_paths() {
            Err(_) => true,
            Ok((sources, dest)) => {
                let mut i: usize = 0;
                while i < sources.len()
                    invariant
                        i <= sources@.len(),
                        split_paths(texts(self.args@), self.read_batch is Some) == Some(
                            (texts(sources@), dest@),
                        ),
                        forall|k: int|
                            0 <= k < i ==> remote_of(#[trigger] texts(sources@)[k]) is None,
                    decreases sources@.len() - i,
                {
                    let r: Option<RemoteSpec> = Options::parse_remote_src(sources[i].as_str());
                    assert(texts(sources@)[i as int] == sources@[i as int]@);
                    if r.is_some() {
                        proof {
                            let (ss, _d) = split_paths(texts(self.args@), self.read_batch is Some)->0;
                            assert(ss == texts(sources@));
                            assert(remote_of(ss[i as int]) is Some);
                        }
                        return false;
                    }
                    i = i + 1;
                }
                Options::parse_remote_dst(dest.as_str()).is_none()
            },
        }
    }

    /// What a source path names on a remote host; nothing where it is local.
    pub fn parse_remote_src(src: &str) -> (res: Option<RemoteSpec>)
        ensures
            opt_remote(res) == remote_of(src@),
    {
        parse_remote(src)
    }

    /// What a destination names on a remote host; nothing where it is local.
    pub fn parse_remote_dst(dst: &str) -> (res: Option<RemoteSpec>)
        ensures
            opt_remote(res) == remote_of(dst@),
    {
        parse_remote(dst)
    }
}

/// Taking `-a` apart again changes nothing, and what it stands for is then set.
pub proof fn archive_expands_once(a: Options, b: Options, c: Options)
    requires
        archive_expanded(a, b),
        archive_expanded(b, c),
    ensures
        c == b,
        a.archive ==> b.recursive && b.links && b.perms && b.times && b.group && b.owner
            && b.devices && b.specials,
{
}

// ---------------------------------------------------------------------------
// Remote paths
// ---------------------------------------------------------------------------

/// A path on a remote host.
#[derive(Debug, Clone)]
pub struct RemoteSpec {
    pub user: Option<String>,
    pub host: String,
    pub port: Option<u16>,
    pub path: String,
    /// Whether the host is reached through its own service.
    pub is_daemon: bool,
}

/// The model of a path on a remote host.
#[verifier::ext_equal]
pub struct Remote {
    pub user: Option<Seq<char>>,
    pub host: Seq<char>,
    pub port: Option<nat>,
    pub path: Seq<char>,
    pub is_daemon: bool,
}

impl View for RemoteSpec {
    type V = Remote;

    open spec fn view(&self) -> Remote {
        Remote {
            user: opt_text(self.user),
            host: self.host@,
            port: match self.port {
                Some(p) => Some(p as nat),
                None => None,
            },
            path: self.path@,
            is_daemon: self.is_daemon,
        }
    }
}

/// The model of an optional path on a remote host.
pub open spec fn opt_remote(r: Option<RemoteSpec>) -> Option<Remote> {
    match r {
        Some(r) => Some(r@),
        None => None,
    }
}

/// The user in front of the first at sign.
pub open spec fn user_part(s: Seq<char>) -> Option<Seq<char>> {
    match first_index(s, '@') {
        Some(i) => Some(s.take(i)),
        None => None,
    }
}

/// The host behind the first at sign.
pub open spec fn host_part(s: Seq<char>) -> Seq<char> {
    match first_index(s, '@') {
        Some(i) => s.skip(i + 1),
        None => s,
    }
}

/// Whether a character is a letter of the Latin alphabet.
pub open spec fn is_letter(c: char) -> bool {
    'a' <= c <= 'z' || 'A' <= c <= 'Z'
}

/// The host of an authority, brackets included, and its port.
pub open spec fn host_and_port(authority: Seq<char>) -> (Seq<char>, Option<nat>) {
    match first_index(authority, ']') {
        Some(b) => (
            authority.take(b + 1),
            if authority.len() > b + 1 && authority[b + 1] == ':' {
                parsed_number(authority.skip(b + 2), 0xffff)
            } else {
                None
            },
        ),
        None => match last_index(authority, ':') {
            Some(c) => (authority.take(c), parsed_number(authority.skip(c + 1), 0xffff)),
            None => (authority, None),
        },
    }
}

/// What a URL names, behind its scheme: user, host, port and path.
pub open spec fn url_of(rest: Seq<char>) -> Option<Remote> {
    let slash = first_index(rest, '/');
    let authority = match slash {
        Some(i) => rest.take(i),
        None => rest,
    };
    let path = match slash {
        Some(i) => rest.skip(i + 1),
        None => Seq::empty(),
    };
    let (user_host, port) = host_and_port(authority);
    if user_host.len() == 0 {
        None
    } else {
        Some(
            Remote {
                user: user_part(user_host),
                host: host_part(user_host),
                port,
                path,
                is_daemon: true,
            },
        )
    }
}

/// Whether the colon at `c` is the first of two, which lead to the service of
/// the host.
pub open spec fn is_double(s: Seq<char>, c: int) -> bool {
    c + 1 < s.len() && s[c + 1] == ':'
}

/// What a path names on a remote host: a URL, or a host, a colon and a path,
/// or a host, two colons, and a path of the host's own service.  A path that
/// starts with a slash or a dot, and a drive letter, are local.
pub open spec fn remote_of(s: Seq<char>) -> Option<Remote> {
    if begins_with(s, "rsync://"@) {
        url_of(s.skip("rsync://"@.len() as int))
    } else if s.len() > 0 && (s[0] == '/' || s[0] == '.') {
        None
    } else {
        match first_index(s, ':') {
            None => None,
            Some(c) => if c == 0 || (c == 1 && is_letter(s[0])) {
                None
            } else {
                Some(
                    Remote {
                        user: user_part(s.take(c)),
                        host: host_part(s.take(c)),
                        port: None,
                        path: if is_double(s, c) {
                            s.skip(c + 2)
                        } else {
                            s.skip(c + 1)
                        },
                        is_daemon: is_double(s, c),
                    },
                )
            },
        }
    }
}

/// Splits at the first at sign.
fn split_user_host(s: &[char]) -> (parts: (Option<String>, String))
    ensures
        opt_text(parts.0) == user_part(s@),
        parts.1@ == host_part(s@),
{
    match find_char(s, '@') {
        Some(at) => {
            assert(s.len() > at);
            let user: String = string_of(s.split_at(at).0);
            let host: String = string_of(s.split_at(at + 1).1);
            assert(user@ =~= s@.take(at as int));
            assert(host@ =~= s@.skip(at + 1));
            (Some(user), host)
        },
        None => (None, string_of(s)),
    }
}

fn parse_port(s: &[char]) -> (port: Option<u16>)
    ensures
        match port {
            Some(p) => parsed_number(s@, 0xffff) == Some(p as nat),
            None => parsed_number(s@, 0xffff) == None::<nat>,
        },
{
    match parse_number(s, 0xffff) {
        Some(n) => {
            assert(n <= 0xffff);
            Some(n as u16)
        },
        None => None,
    }
}

fn split_port(authority: &[char]) -> (parts: (&[char], Option<u16>))
    ensures
        parts.0@ == host_and_port(authority@).0,
        match parts.1 {
            Some(p) => host_and_port(authority@).1 == Some(p as nat),
            None => host_and_port(authority@).1 == None::<nat>,
        },
{
    match find_char(authority, ']') {
        Some(b) => {
            assert(authority.len() > b);
            let host: &[char] = authority.split_at(b + 1).0;
            assert(host@ =~= authority@.take(b + 1));
            let port: Option<u16> = if authority.len() > b + 1 && authority[b + 1] == ':' {
                let digits: &[char] = authority.split_at(b + 2).1;
                assert(digits@ =~= authority@.skip(b + 2));
                parse_port(digits)
            } else {
                None
            };
            (host, port)
        },
        None => match rfind_char(authority, ':') {
            Some(c) => {
                assert(authority.len() > c);
                let host: &[char] = authority.split_at(c).0;
                let digits: &[char] = authority.split_at(c + 1).1;
                assert(host@ =~= authority@.take(c as int));
                assert(digits@ =~= authority@.skip(c + 1));
                (host, parse_port(digits))
            },
            None => (authority, None),
        },
    }
}

fn parse_rsync_url(rest: &[char]) -> (res: Option<RemoteSpec>)
    ensures
        opt_remote(res) == url_of(rest@),
{
    let mut authority: &[char] = rest;
    let mut path: String = String::new();
    match find_char(rest, '/') {
        Some(i) => {
            authority = rest.split_at(i).0;
            assert(rest.len() > i);
            path = string_of(rest.split_at(i + 1).1);
            assert(authority@ =~= rest@.take(i as int));
            assert(path@ =~= rest@.skip(i + 1));
        },
        None => {},
    }
    let (user_host, port): (&[char], Option<u16>) = split_port(authority);
    if user_host.len() == 0 {
        return None;
    }
    let (user, host): (Option<String>, String) = split_user_host(user_host);
    Some(RemoteSpec { user, host, port, path, is_daemon: true })
}

fn parse_remote(s: &str) -> (res: Option<RemoteSpec>)
    ensures
        opt_remote(res) == remote_of(s@),
{
    let chars: Vec<char> = chars_of(s);
    let all: &[char] = chars.as_slice();
    if starts_with_text(all, "rsync://") {
        let n: usize = chars_of("rsync://").len();
        let rest: &[char] = all.split_at(n).1;
        assert(rest@ =~= s@.skip("rsync://"@.len() as int));
        return parse_rsync_url(rest);
    }
    if all.len() > 0 && (all[0] == '/' || all[0] == '.') {
        return None;
    }
    match find_char(all, ':') {
        None => None,
        Some(c) => {
            if c == 0 {
                return None;
            }
            let first: char = all[0];
            if c == 1 && (('a' <= first && first <= 'z') || ('A' <= first && first <= 'Z')) {
                return None;
            }
            let front: &[char] = all.split_at(c).0;
            let behind: &[char] = all.split_at(c + 1).1;
            assert(front@ =~= s@.take(c as int));
            assert(behind@ =~= s@.skip(c + 1));
            let is_daemon: bool = behind.len() > 0 && behind[0] == ':';
            let path: String = if is_daemon {
                assert(behind@.skip(1) =~= s@.skip(c + 2));
                let rest: &[char] = behind.split_at(1).1;
                assert(rest@ =~= behind@.skip(1));
                string_of(rest)
            } else {
                string_of(behind)
            };
            let (user, host): (Option<String>, String) = split_user_host(front);
            Some(RemoteSpec { user, host, port: None, path, is_daemon })
        },
    }
}

/// A user and a host without an at sign are found again when they are joined.
pub proof fn user_host_round_trip(user: Seq<char>, host: Seq<char>)
    requires
        !user.contains('@'),
    ensures
        user_part(user + seq!['@'] + host) == Some(user),
        host_part(user + seq!['@'] + host) == host,
{
    let s = user + seq!['@'] + host;
    lemma_index_from(s, '@', 0);
    match first_index(s, '@') {
        Some(i) => {
            if i < user.len() {
                assert(user[i] == '@');
            } else if i > user.len() {
                assert(s[user.len() as int] == '@');
            }
            assert(s.take(i) =~= user);
            assert(s.skip(i + 1) =~= host);
        },
        None => {
            assert(s[user.len() as int] == '@');
        },
    }
}

} // verus!
