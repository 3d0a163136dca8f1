//! What the options of one side promise to the other: the far end reads from
//! its arguments what the near end was asked for.

use vstd::prelude::*;

use crate::options::{
    archive_letters, arg_each, arg_if, arg_number, arg_pairs, arg_text, attribute_args, char_if,
    delete_args, filter_args, flag_word, limit_args, mode_letters, opt_i32, opt_u32, opt_u64,
    other_args, path_args, protocol_args, server_args_of, transfer_letters, Options,
};
use crate::options_server::path_args as left_over;
use crate::options_server::{
    asks_delete, delete_given, given, given_twice, holds_letters, is_long, is_word, times_given,
    word_letters, words_in, ServerFlags,
};
use crate::protocol::types::{char_count, opt_text};
use crate::text::{lemma_index_from, texts};

verus! {

// ---------------------------------------------------------------------------
// The letters of the word
// ---------------------------------------------------------------------------

proof fn lemma_count_concat(a: Seq<char>, b: Seq<char>, c: char)
    ensures
        char_count(a + b, c) == char_count(a, c) + char_count(b, c),
    decreases b.len(),
{
    if b.len() == 0 {
        assert(a + b =~= a);
    } else {
        assert((a + b).drop_last() =~= a + b.drop_last());
        lemma_count_concat(a, b.drop_last(), c);
    }
}

/// How often a letter that is written where `b` holds is the letter `c`.
spec fn one(b: bool, x: char, c: char) -> nat {
    if b && x == c {
        1
    } else {
        0
    }
}

proof fn lemma_count_if(s: Seq<char>, b: bool, x: char, c: char)
    ensures
        char_count(s + char_if(b, x), c) == char_count(s, c) + one(b, x, c),
{
    lemma_count_concat(s, char_if(b, x), c);
    reveal_with_fuel(char_count, 2);
    if b {
        assert(seq![x].drop_last() =~= Seq::<char>::empty());
    }
}

proof fn lemma_count_same(n: nat, x: char, c: char)
    ensures
        char_count(Seq::new(n, |i: int| x), c) == if x == c {
            n
        } else {
            0
        },
    decreases n,
{
    if n > 0 {
        let s = Seq::new(n, |i: int| x);
        assert(s.drop_last() =~= Seq::new((n - 1) as nat, |i: int| x));
        lemma_count_same((n - 1) as nat, x, c);
    }
}

proof fn lemma_count_archive(o: Options, c: char)
    ensures
        char_count(archive_letters(o), c) == if o.archive {
            one(true, 'a', c)
        } else {
            one(o.recursive, 'r', c) + one(o.links, 'l', c) + one(o.perms, 'p', c) + one(
                o.times,
                't',
                c,
            ) + one(o.group, 'g', c) + one(o.owner, 'o', c) + one(o.devices, 'D', c)
        },
{
    let s0 = Seq::<char>::empty();
    if o.archive {
        lemma_count_if(s0, true, 'a', c);
        assert(s0 + char_if(true, 'a') =~= seq!['a']);
    } else {
        let s1 = s0 + char_if(o.recursive, 'r');
        let s2 = s1 + char_if(o.links, 'l');
        let s3 = s2 + char_if(o.perms, 'p');
        let s4 = s3 + char_if(o.times, 't');
        let s5 = s4 + char_if(o.group, 'g');
        let s6 = s5 + char_if(o.owner, 'o');
        lemma_count_if(s0, o.recursive, 'r', c);
        lemma_count_if(s1, o.links, 'l', c);
        lemma_count_if(s2, o.perms, 'p', c);
        lemma_count_if(s3, o.times, 't', c);
        lemma_count_if(s4, o.group, 'g', c);
        lemma_count_if(s5, o.owner, 'o', c);
        lemma_count_if(s6, o.devices, 'D', c);
    }
}

proof fn lemma_count_transfer(o: Options, c: char)
    ensures
        char_count(transfer_letters(o), c) == one(o.checksum, 'c', c) + one(o.update, 'u', c) + one(
            o.hard_links,
            'H',
            c,
        ) + one(o.copy_links, 'L', c) + one(o.keep_dirlinks, 'k', c) + one(o.whole_file, 'W', c)
            + one(o.dry_run, 'n', c),
{
    let s0 = Seq::<char>::empty();
    let s1 = s0 + char_if(o.checksum, 'c');
    let s2 = s1 + char_if(o.update, 'u');
    let s3 = s2 + char_if(o.hard_links, 'H');
    let s4 = s3 + char_if(o.copy_links, 'L');
    let s5 = s4 + char_if(o.keep_dirlinks, 'k');
    let s6 = s5 + char_if(o.whole_file, 'W');
    lemma_count_if(s0, o.checksum, 'c', c);
    lemma_count_if(s1, o.update, 'u', c);
    lemma_count_if(s2, o.hard_links, 'H', c);
    lemma_count_if(s3, o.copy_links, 'L', c);
    lemma_count_if(s4, o.keep_dirlinks, 'k', c);
    lemma_count_if(s5, o.whole_file, 'W', c);
    lemma_count_if(s6, o.dry_run, 'n', c);
}

proof fn lemma_count_mode(o: Options, c: char)
    ensures
        char_count(mode_letters(o), c) == one(o.relative, 'R', c) + one(o.backup, 'b', c) + one(
            o.one_file_system,
            'x',
            c,
        ) + one(o.itemize_changes, 'i', c) + one(o.omit_dir_times, 'O', c) + one(
            o.prune_empty_dirs,
            'm',
            c,
        ) + one(o.fuzzy, 'y', c) + one(o.compress, 'z', c),
{
    let s0 = Seq::<char>::empty();
    let s1 = s0 + char_if(o.relative, 'R');
    let s2 = s1 + char_if(o.backup, 'b');
    let s3 = s2 + char_if(o.one_file_system, 'x');
    let s4 = s3 + char_if(o.itemize_changes, 'i');
    let s5 = s4 + char_if(o.omit_dir_times, 'O');
    let s6 = s5 + char_if(o.prune_empty_dirs, 'm');
    let s7 = s6 + char_if(o.fuzzy, 'y');
    lemma_count_if(s0, o.relative, 'R', c);
    lemma_count_if(s1, o.backup, 'b', c);
    lemma_count_if(s2, o.one_file_system, 'x', c);
    lemma_count_if(s3, o.itemize_changes, 'i', c);
    lemma_count_if(s4, o.omit_dir_times, 'O', c);
    lemma_count_if(s5, o.prune_empty_dirs, 'm', c);
    lemma_count_if(s6, o.fuzzy, 'y', c);
    lemma_count_if(s7, o.compress, 'z', c);
}

proof fn lemma_count_parts(
    v: Seq<char>,
    q: Seq<char>,
    a: Seq<char>,
    t: Seq<char>,
    m: Seq<char>,
    c: char,
)
    ensures
        (seq!['-'] + v + q + a + t + m).skip(1) == v + q + a + t + m,
        char_count(v + q + a + t + m, c) == char_count(v, c) + char_count(q, c) + char_count(a, c)
            + char_count(t, c) + char_count(m, c),
{
    lemma_count_concat(v, q, c);
    lemma_count_concat(v + q, a, c);
    lemma_count_concat(v + q + a, t, c);
    lemma_count_concat(v + q + a + t, m, c);
    assert((seq!['-'] + v + q + a + t + m).skip(1) =~= v + q + a + t + m);
}

proof fn lemma_count_word(o: Options, c: char)
    ensures
        char_count(flag_word(o).skip(1), c) == (if c == 'v' {
            o.verbose as nat
        } else {
            0
        }) + one(o.quiet, 'q', c) + char_count(archive_letters(o), c) + char_count(
            transfer_letters(o),
            c,
        ) + char_count(mode_letters(o), c),
{
    let v = Seq::new(o.verbose as nat, |i: int| 'v');
    let q = char_if(o.quiet, 'q');
    lemma_count_same(o.verbose as nat, 'v', c);
    lemma_count_if(Seq::empty(), o.quiet, 'q', c);
    assert(Seq::<char>::empty() + q =~= q);
    lemma_count_parts(v, q, archive_letters(o), transfer_letters(o), mode_letters(o), c);
}

proof fn lemma_no_such(s: Seq<char>, c: char)
    requires
        char_count(s, c) == 0,
    ensures
        !s.contains(c),
    decreases s.len(),
{
    if s.len() > 0 {
        lemma_no_such(s.drop_last(), c);
        assert forall|i: int| 0 <= i < s.len() implies s[i] != c by {
            if i < s.len() - 1 {
                assert(s.drop_last()[i] == s[i]);
            }
        }
    }
}

// ---------------------------------------------------------------------------
// The words among the arguments
// ---------------------------------------------------------------------------

proof fn lemma_words_concat(a: Seq<Seq<char>>, b: Seq<Seq<char>>)
    ensures
        words_in(a + b) == words_in(a) + words_in(b),
    decreases b.len(),
{
    if b.len() == 0 {
        assert(a + b =~= a);
        assert(words_in(a) + words_in(b) =~= words_in(a));
    } else {
        assert((a + b).drop_last() =~= a + b.drop_last());
        lemma_words_concat(a, b.drop_last());
        assert(words_in(a + b) =~= words_in(a) + words_in(b));
    }
}

/// Whether no argument is a word of letters.
spec fn wordless(args: Seq<Seq<char>>) -> bool {
    forall|i: int| 0 <= i < args.len() ==> !is_word(#[trigger] args[i])
}

proof fn lemma_wordless(args: Seq<Seq<char>>)
    requires
        wordless(args),
    ensures
        words_in(args) == Seq::<Seq<char>>::empty(),
    decreases args.len(),
{
    if args.len() > 0 {
        assert(!is_word(args[args.len() - 1]));
        lemma_wordless(args.drop_last());
    }
}

/// Whether a text starts with two dashes.
spec fn dashed(s: Seq<char>) -> bool {
    s.len() >= 2 && s[0] == '-' && s[1] == '-'
}

proof fn lemma_long(s: Seq<char>)
    requires
        dashed(s),
    ensures
        is_long(s),
{
    reveal_strlit("--");
    assert(s.take(2) =~= "--"@);
}

/// Whether all arguments start with two dashes.
spec fn all_dashed(args: Seq<Seq<char>>) -> bool {
    forall|i: int| 0 <= i < args.len() ==> dashed(#[trigger] args[i])
}

proof fn lemma_dashed_wordless(args: Seq<Seq<char>>)
    requires
        all_dashed(args),
    ensures
        wordless(args),
{
    assert forall|i: int| 0 <= i < args.len() implies !is_word(#[trigger] args[i]) by {
        lemma_long(args[i]);
    }
}

/// Whether an argument is an option with a name that starts with something
/// else than `d`.
spec fn named(arg: Seq<char>) -> bool {
    dashed(arg) && arg.len() > 2 && arg[2] != 'd'
}

/// Whether all arguments are such options.
spec fn all_named(args: Seq<Seq<char>>) -> bool {
    forall|i: int| 0 <= i < args.len() ==> named(#[trigger] args[i])
}

proof fn lemma_more_named(a: Seq<Seq<char>>, b: Seq<Seq<char>>)
    requires
        all_named(a),
        all_named(b),
    ensures
        all_named(a + b),
{
    assert forall|i: int| 0 <= i < (a + b).len() implies named(#[trigger] (a + b)[i]) by {
        if i < a.len() {
            assert((a + b)[i] == a[i]);
        } else {
            assert((a + b)[i] == b[i - a.len()]);
        }
    }
}

proof fn lemma_delete_args(o: Options)
    ensures
        all_dashed(delete_args(o)),
{
    reveal_strlit("--delete");
    reveal_strlit("--delete-before");
    reveal_strlit("--delete-during");
    reveal_strlit("--delete-after");
    reveal_strlit("--delete-excluded");
    reveal_strlit("--force");
    reveal_strlit("--max-delete=");
}

proof fn lemma_path_args(o: Options)
    ensures
        all_named(path_args(o)),
{
    reveal_strlit("--numeric-ids");
    reveal_strlit("--copy-dirlinks");
    reveal_strlit("--no-implied-dirs");
    reveal_strlit("--partial");
    reveal_strlit("--partial-dir=");
    reveal_strlit("--inplace");
    reveal_strlit("--append");
    let a0 = Seq::<Seq<char>>::empty();
    let a1 = a0 + arg_if(o.numeric_ids, "--numeric-ids"@);
    let a2 = a1 + arg_if(o.copy_dirlinks, "--copy-dirlinks"@);
    let a3 = a2 + arg_if(o.no_implied_dirs, "--no-implied-dirs"@);
    let a4 = a3 + arg_if(o.partial, "--partial"@);
    let a5 = a4 + arg_text("--partial-dir="@, opt_text(o.partial_dir));
    let a6 = a5 + arg_if(o.inplace, "--inplace"@);
    lemma_more_named(a0, arg_if(o.numeric_ids, "--numeric-ids"@));
    lemma_more_named(a1, arg_if(o.copy_dirlinks, "--copy-dirlinks"@));
    lemma_more_named(a2, arg_if(o.no_implied_dirs, "--no-implied-dirs"@));
    lemma_more_named(a3, arg_if(o.partial, "--partial"@));
    lemma_more_named(a4, arg_text("--partial-dir="@, opt_text(o.partial_dir)));
    lemma_more_named(a5, arg_if(o.inplace, "--inplace"@));
    lemma_more_named(a6, arg_if(o.append, "--append"@));
}

proof fn lemma_limit_args(o: Options)
    ensures
        all_named(limit_args(o)),
{
    reveal_strlit("--no-whole-file");
    reveal_strlit("--progress");
    reveal_strlit("--stats");
    reveal_strlit("--max-size=");
    reveal_strlit("--min-size=");
    reveal_strlit("--bwlimit=");
    reveal_strlit("--timeout=");
    let a0 = Seq::<Seq<char>>::empty();
    let a1 = a0 + arg_if(o.no_whole_file, "--no-whole-file"@);
    let a2 = a1 + arg_if(o.progress, "--progress"@);
    let a3 = a2 + arg_if(o.stats, "--stats"@);
    let a4 = a3 + arg_text("--max-size="@, opt_text(o.max_size));
    let a5 = a4 + arg_text("--min-size="@, opt_text(o.min_size));
    let a6 = a5 + arg_number("--bwlimit="@, opt_u64(o.bwlimit));
    lemma_more_named(a0, arg_if(o.no_whole_file, "--no-whole-file"@));
    lemma_more_named(a1, arg_if(o.progress, "--progress"@));
    lemma_more_named(a2, arg_if(o.stats, "--stats"@));
    lemma_more_named(a3, arg_text("--max-size="@, opt_text(o.max_size)));
    lemma_more_named(a4, arg_text("--min-size="@, opt_text(o.min_size)));
    lemma_more_named(a5, arg_number("--bwlimit="@, opt_u64(o.bwlimit)));
    lemma_more_named(a6, arg_number("--timeout="@, opt_u32(o.timeout)));
}

proof fn lemma_protocol_args(o: Options)
    ensures
        all_named(protocol_args(o)),
{
    reveal_strlit("--checksum-choice=");
    reveal_strlit("--protocol=");
    reveal_strlit("--compress-level=");
    reveal_strlit("--omit-link-times");
    reveal_strlit("--executability");
    reveal_strlit("--acls");
    let a0 = Seq::<Seq<char>>::empty();
    let a1 = a0 + arg_text("--checksum-choice="@, opt_text(o.checksum_choice));
    let a2 = a1 + arg_number("--protocol="@, opt_u32(o.protocol));
    let a3 = a2 + arg_number("--compress-level="@, opt_i32(o.compress_level));
    let a4 = a3 + arg_if(o.omit_link_times, "--omit-link-times"@);
    let a5 = a4 + arg_if(o.executability, "--executability"@);
    lemma_more_named(a0, arg_text("--checksum-choice="@, opt_text(o.checksum_choice)));
    lemma_more_named(a1, arg_number("--protocol="@, opt_u32(o.protocol)));
    lemma_more_named(a2, arg_number("--compress-level="@, opt_i32(o.compress_level)));
    lemma_more_named(a3, arg_if(o.omit_link_times, "--omit-link-times"@));
    lemma_more_named(a4, arg_if(o.executability, "--executability"@));
    lemma_more_named(a5, arg_if(o.acls, "--acls"@));
}

proof fn lemma_attribute_args(o: Options)
    ensures
        all_named(attribute_args(o)),
{
    reveal_strlit("--xattrs");
    reveal_strlit("--specials");
    reveal_strlit("--ignore-errors");
    reveal_strlit("--ignore-existing");
    reveal_strlit("--ignore-non-existing");
    let a0 = Seq::<Seq<char>>::empty();
    let a1 = a0 + arg_if(o.xattrs, "--xattrs"@);
    let a2 = a1 + arg_if(o.specials && !o.archive && !o.devices, "--specials"@);
    let a3 = a2 + arg_if(o.ignore_errors, "--ignore-errors"@);
    let a4 = a3 + arg_if(o.ignore_existing, "--ignore-existing"@);
    lemma_more_named(a0, arg_if(o.xattrs, "--xattrs"@));
    lemma_more_named(a1, arg_if(o.specials && !o.archive && !o.devices, "--specials"@));
    lemma_more_named(a2, arg_if(o.ignore_errors, "--ignore-errors"@));
    lemma_more_named(a3, arg_if(o.ignore_existing, "--ignore-existing"@));
    lemma_more_named(a4, arg_if(o.ignore_non_existing, "--ignore-non-existing"@));
}

proof fn lemma_other_args(o: Options)
    ensures
        all_named(other_args(o)),
{
    reveal_strlit("--remove-source-files");
    reveal_strlit("--list-only");
    reveal_strlit("--mkpath");
    reveal_strlit("--suffix=");
    reveal_strlit("--backup-dir=");
    reveal_strlit("--cvs-exclude");
    let a0 = Seq::<Seq<char>>::empty();
    let a1 = a0 + arg_if(o.remove_source_files, "--remove-source-files"@);
    let a2 = a1 + arg_if(o.list_only, "--list-only"@);
    let a3 = a2 + arg_if(o.mkpath, "--mkpath"@);
    let a4 = a3 + arg_text("--suffix="@, opt_text(o.suffix));
    let a5 = a4 + arg_text("--backup-dir="@, opt_text(o.backup_dir));
    lemma_more_named(a0, arg_if(o.remove_source_files, "--remove-source-files"@));
    lemma_more_named(a1, arg_if(o.list_only, "--list-only"@));
    lemma_more_named(a2, arg_if(o.mkpath, "--mkpath"@));
    lemma_more_named(a3, arg_text("--suffix="@, opt_text(o.suffix)));
    lemma_more_named(a4, arg_text("--backup-dir="@, opt_text(o.backup_dir)));
    lemma_more_named(a5, arg_if(o.cvs_exclude, "--cvs-exclude"@));
}

proof fn lemma_filter_args(o: Options)
    requires
        wordless(texts(o.filter@)),
    ensures
        wordless(filter_args(o)),
{
    reveal_strlit("--exclude=");
    reveal_strlit("--include=");
    reveal_strlit("--filter");
    let a = arg_each("--exclude="@, texts(o.exclude@));
    let b = arg_each("--include="@, texts(o.include_patterns@));
    let c = arg_pairs("--filter"@, texts(o.filter@));
    assert(all_dashed(a));
    assert(all_dashed(b));
    lemma_dashed_wordless(a);
    lemma_dashed_wordless(b);
    lemma_long("--filter"@);
    assert(wordless(c)) by {
        assert forall|i: int| 0 <= i < c.len() implies !is_word(#[trigger] c[i]) by {
            if i % 2 == 1 {
                assert(c[i] == texts(o.filter@)[i / 2]);
            }
        }
    }
    let f = filter_args(o);
    assert forall|i: int| 0 <= i < f.len() implies !is_word(#[trigger] f[i]) by {
        if i < a.len() {
            assert(f[i] == a[i]);
        } else if i < a.len() + b.len() {
            assert(f[i] == b[i - a.len()]);
        } else {
            assert(f[i] == c[i - a.len() - b.len()]);
        }
    }
}

/// The words among the arguments for the far end: the one word of letters, if
/// it has any.
proof fn lemma_words(o: Options)
    requires
        wordless(texts(o.filter@)),
    ensures
        words_in(server_args_of(o)) == words_in(arg_if(flag_word(o).len() > 1, flag_word(o))),
{
    lemma_delete_args(o);
    lemma_path_args(o);
    lemma_limit_args(o);
    lemma_protocol_args(o);
    lemma_attribute_args(o);
    lemma_other_args(o);
    lemma_filter_args(o);
    lemma_all_words(
        arg_if(flag_word(o).len() > 1, flag_word(o)),
        delete_args(o),
        path_args(o),
        limit_args(o),
        protocol_args(o),
        attribute_args(o),
        other_args(o),
        filter_args(o),
    );
}

proof fn lemma_all_words(
    w: Seq<Seq<char>>,
    a: Seq<Seq<char>>,
    b: Seq<Seq<char>>,
    c: Seq<Seq<char>>,
    d: Seq<Seq<char>>,
    e: Seq<Seq<char>>,
    f: Seq<Seq<char>>,
    g: Seq<Seq<char>>,
)
    requires
        all_dashed(a),
        all_named(b),
        all_named(c),
        all_named(d),
        all_named(e),
        all_named(f),
        wordless(g),
    ensures
        words_in(w + a + b + c + d + e + f + g) == words_in(w),
{
    lemma_dashed_wordless(a);
    lemma_dashed_wordless(b);
    lemma_dashed_wordless(c);
    lemma_dashed_wordless(d);
    lemma_dashed_wordless(e);
    lemma_dashed_wordless(f);
    lemma_more_words(w, a);
    lemma_more_words(w + a, b);
    lemma_more_words(w + a + b, c);
    lemma_more_words(w + a + b + c, d);
    lemma_more_words(w + a + b + c + d, e);
    lemma_more_words(w + a + b + c + d + e, f);
    lemma_more_words(w + a + b + c + d + e + f, g);
}

proof fn lemma_more_words(w: Seq<Seq<char>>, a: Seq<Seq<char>>)
    requires
        wordless(a),
    ensures
        words_in(w + a) == words_in(w),
{
    lemma_words_concat(w, a);
    lemma_wordless(a);
    assert(words_in(w) + words_in(a) =~= words_in(w));
}

/// The letters of the word are all that is behind its dash.
proof fn lemma_word_is_read(o: Options)
    ensures
        words_in(arg_if(flag_word(o).len() > 1, flag_word(o))) == if flag_word(o).len() > 1 {
            seq![flag_word(o).skip(1)]
        } else {
            Seq::empty()
        },
{
    let w = flag_word(o);
    let letters = w.skip(1);
    assert(w[0] == '-');
    if w.len() > 1 {
        lemma_count_word(o, 'e');
        lemma_count_archive(o, 'e');
        lemma_count_transfer(o, 'e');
        lemma_count_mode(o, 'e');
        lemma_no_such(letters, 'e');
        lemma_index_from(letters, 'e', 0);
        lemma_count_word(o, '-');
        lemma_count_archive(o, '-');
        lemma_count_transfer(o, '-');
        lemma_count_mode(o, '-');
        lemma_no_such(letters, '-');
        assert(w[1] == letters[0]);
        assert(letters.contains(letters[0]));
        reveal_strlit("--");
        assert(!is_long(w)) by {
            if is_long(w) {
                assert(w.take(2)[1] == '-');
            }
        }
        assert(word_letters(w) =~= letters);
        reveal_with_fuel(words_in, 2);
        let args = arg_if(true, w);
        assert(args.drop_last() =~= Seq::<Seq<char>>::empty());
        assert(words_in(args) =~= seq![letters]);
    } else {
        assert(arg_if(false, w) =~= Seq::<Seq<char>>::empty());
    }
}

/// The words that the far end is given.
#[verifier::opaque]
spec fn far_words(o: Options) -> Seq<Seq<char>> {
    words_in(server_args_of(o))
}

/// The letters that the far end is given.
#[verifier::opaque]
spec fn far_letters(o: Options) -> Seq<char> {
    flag_word(o).skip(1)
}

/// How often the options ask for a letter.
spec fn asked(o: Options, c: char) -> nat {
    (if c == 'v' {
        o.verbose as nat
    } else {
        0
    }) + one(o.quiet, 'q', c) + asked_archive(o, c) + asked_transfer(o, c) + asked_mode(o, c)
}

spec fn asked_archive(o: Options, c: char) -> nat {
    if o.archive {
        one(true, 'a', c)
    } else {
        one(o.recursive, 'r', c) + one(o.links, 'l', c) + one(o.perms, 'p', c) + one(
            o.times,
            't',
            c,
        ) + one(o.group, 'g', c) + one(o.owner, 'o', c) + one(o.devices, 'D', c)
    }
}

spec fn asked_transfer(o: Options, c: char) -> nat {
    one(o.checksum, 'c', c) + one(o.update, 'u', c) + one(o.hard_links, 'H', c) + one(
        o.copy_links,
        'L',
        c,
    ) + one(o.keep_dirlinks, 'k', c) + one(o.whole_file, 'W', c) + one(o.dry_run, 'n', c)
}

spec fn asked_mode(o: Options, c: char) -> nat {
    one(o.relative, 'R', c) + one(o.backup, 'b', c) + one(o.one_file_system, 'x', c) + one(
        o.itemize_changes,
        'i',
        c,
    ) + one(o.omit_dir_times, 'O', c) + one(o.prune_empty_dirs, 'm', c) + one(o.fuzzy, 'y', c)
        + one(o.compress, 'z', c)
}

proof fn lemma_far_count(o: Options, c: char)
    ensures
        char_count(far_letters(o), c) == asked(o, c),
{
    reveal(far_letters);
    lemma_count_word(o, c);
    lemma_count_archive(o, c);
    lemma_count_transfer(o, c);
    lemma_count_mode(o, c);
}

proof fn lemma_far_words(o: Options)
    requires
        wordless(texts(o.filter@)),
    ensures
        far_words(o) == (if far_letters(o).len() > 0 {
            seq![far_letters(o)]
        } else {
            Seq::empty()
        }),
{
    reveal(far_words);
    reveal(far_letters);
    lemma_words(o);
    lemma_word_is_read(o);
}

/// A letter is given to the far end as often as the options ask for it.
proof fn lemma_letter(o: Options, c: char)
    requires
        wordless(texts(o.filter@)),
    ensures
        given(far_words(o), c) == (asked(o, c) >= 1),
        given_twice(far_words(o), c) == (asked(o, c) >= 2),
        times_given(far_words(o), c) == asked(o, c),
{
    lemma_far_words(o);
    lemma_far_count(o, c);
    let letters = far_letters(o);
    let words = far_words(o);
    if letters.len() > 0 {
        assert(words[0] == letters);
        reveal_with_fuel(times_given, 2);
        assert(words.drop_last() =~= Seq::<Seq<char>>::empty());
    } else {
        assert(letters =~= Seq::<char>::empty());
    }
}

/// Whether the far end reads what the options ask for in one letter each, and
/// how often.
spec fn reads_attributes(o: Options, f: ServerFlags) -> bool {
    &&& f.verbose == o.verbose
    &&& f.quiet == o.quiet
    &&& f.archive == o.archive
    &&& f.recursive == (o.archive || o.recursive)
    &&& f.links == (o.archive || o.links)
    &&& f.perms == (o.archive || o.perms)
    &&& f.times == (o.archive || o.times)
    &&& f.group == (o.archive || o.group)
    &&& f.owner == (o.archive || o.owner)
    &&& f.devices == (o.archive || o.devices)
}

proof fn lemma_reads_attributes(o: Options, f: ServerFlags)
    requires
        wordless(texts(o.filter@)),
        holds_letters(f, far_words(o)),
    ensures
        reads_attributes(o, f),
{
    lemma_letter(o, 'v');
    lemma_letter(o, 'q');
    lemma_letter(o, 'a');
    lemma_letter(o, 'r');
    lemma_letter(o, 'l');
    lemma_letter(o, 'p');
    lemma_letter(o, 't');
    lemma_letter(o, 'g');
    lemma_letter(o, 'o');
    lemma_letter(o, 'D');
}

proof fn lemma_reads_transfer(o: Options, f: ServerFlags)
    requires
        wordless(texts(o.filter@)),
        holds_letters(f, far_words(o)),
    ensures
        f.checksum == o.checksum,
        f.update == o.update,
        f.hard_links == o.hard_links,
        f.copy_links == o.copy_links,
        f.keep_dirlinks == o.keep_dirlinks,
        f.whole_file == o.whole_file,
        f.dry_run == o.dry_run,
{
    lemma_letter(o, 'c');
    lemma_letter(o, 'u');
    lemma_letter(o, 'H');
    lemma_letter(o, 'L');
    lemma_letter(o, 'k');
    lemma_letter(o, 'W');
    lemma_letter(o, 'n');
}

proof fn lemma_reads_mode(o: Options, f: ServerFlags)
    requires
        wordless(texts(o.filter@)),
        holds_letters(f, far_words(o)),
    ensures
        f.relative == o.relative,
        f.itemize == o.itemize_changes,
        f.one_file_system == o.one_file_system,
        f.compress == o.compress,
        !f.xattrs,
{
    lemma_letter(o, 'R');
    lemma_letter(o, 'i');
    lemma_letter(o, 'x');
    lemma_letter(o, 'z');
}

/// The far end reads from its arguments what the near end was asked for, with
/// `-a` taken apart.  A filter rule that looks like a word of letters, such as
/// `- *.o`, is taken for one, so there must be none.
pub proof fn far_end_reads_flags(o: Options, f: ServerFlags)
    requires
        forall|i: int| 0 <= i < o.filter@.len() ==> !is_word(#[trigger] texts(o.filter@)[i]),
        holds_letters(f, words_in(server_args_of(o))),
    ensures
        f.verbose == o.verbose,
        f.quiet == o.quiet,
        f.archive == o.archive,
        f.recursive == (o.archive || o.recursive),
        f.links == (o.archive || o.links),
        f.perms == (o.archive || o.perms),
        f.times == (o.archive || o.times),
        f.group == (o.archive || o.group),
        f.owner == (o.archive || o.owner),
        f.devices == (o.archive || o.devices),
        f.checksum == o.checksum,
        f.update == o.update,
        f.hard_links == o.hard_links,
        f.copy_links == o.copy_links,
        f.keep_dirlinks == o.keep_dirlinks,
        f.whole_file == o.whole_file,
        f.dry_run == o.dry_run,
        f.relative == o.relative,
        f.itemize == o.itemize_changes,
        f.one_file_system == o.one_file_system,
        f.compress == o.compress,
        !f.xattrs,
{
    assert(far_words(o) == words_in(server_args_of(o))) by {
        reveal(far_words);
    }
    lemma_reads_attributes(o, f);
    lemma_reads_transfer(o, f);
    lemma_reads_mode(o, f);
}

/// Whether one of some arguments asks for deletion.
spec fn asks(args: Seq<Seq<char>>) -> bool {
    exists|i: int| 0 <= i < args.len() && #[trigger] asking(args[i])
}

spec fn asking(arg: Seq<char>) -> bool {
    is_long(arg) && asks_delete(arg.skip(2))
}

proof fn lemma_asks_concat(a: Seq<Seq<char>>, b: Seq<Seq<char>>)
    ensures
        asks(a + b) == (asks(a) || asks(b)),
{
    if asks(a) {
        let i = choose|i: int| 0 <= i < a.len() && #[trigger] asking(a[i]);
        assert((a + b)[i] == a[i]);
    }
    if asks(b) {
        let i = choose|i: int| 0 <= i < b.len() && #[trigger] asking(b[i]);
        assert((a + b)[a.len() + i] == b[i]);
    }
    if asks(a + b) {
        let i = choose|i: int| 0 <= i < (a + b).len() && #[trigger] asking((a + b)[i]);
        if i < a.len() {
            assert((a + b)[i] == a[i]);
        } else {
            assert((a + b)[i] == b[i - a.len()]);
        }
    }
}

proof fn lemma_not_asking(arg: Seq<char>)
    requires
        arg.len() > 2,
        arg[2] != 'd',
    ensures
        !asking(arg),
{
    reveal_strlit("delete");
    reveal_strlit("delete-before");
    reveal_strlit("delete-during");
    reveal_strlit("delete-after");
    assert(arg.skip(2)[0] == arg[2]);
}

proof fn lemma_asks_nothing(args: Seq<Seq<char>>)
    requires
        all_named(args),
    ensures
        !asks(args),
{
    assert forall|i: int| 0 <= i < args.len() implies !#[trigger] asking(args[i]) by {
        lemma_not_asking(args[i]);
    }
}

proof fn lemma_asks_if(a: Seq<Seq<char>>, b: bool, s: Seq<char>)
    ensures
        asks(a + arg_if(b, s)) == (asks(a) || b && asking(s)),
{
    lemma_asks_concat(a, arg_if(b, s));
    if b {
        assert(arg_if(b, s)[0] == s);
    }
}

proof fn lemma_asks_delete(o: Options)
    ensures
        asks(delete_args(o)) == (o.delete || o.delete_before || o.delete_during || o.delete_after),
{
    reveal_strlit("--");
    reveal_strlit("delete");
    reveal_strlit("delete-before");
    reveal_strlit("delete-during");
    reveal_strlit("delete-after");
    reveal_strlit("--delete");
    reveal_strlit("--delete-before");
    reveal_strlit("--delete-during");
    reveal_strlit("--delete-after");
    reveal_strlit("--delete-excluded");
    reveal_strlit("--force");
    reveal_strlit("--max-delete=");
    let a0 = Seq::<Seq<char>>::empty();
    let a1 = a0 + arg_if(o.delete, "--delete"@);
    let a2 = a1 + arg_if(o.delete_before, "--delete-before"@);
    let a3 = a2 + arg_if(o.delete_during, "--delete-during"@);
    let a4 = a3 + arg_if(o.delete_after, "--delete-after"@);
    let a5 = a4 + arg_if(o.delete_excluded, "--delete-excluded"@);
    let a6 = a5 + arg_if(o.force, "--force"@);
    let last = arg_number("--max-delete="@, opt_i32(o.max_delete));
    lemma_asks_if(a0, o.delete, "--delete"@);
    lemma_asks_if(a1, o.delete_before, "--delete-before"@);
    lemma_asks_if(a2, o.delete_during, "--delete-during"@);
    lemma_asks_if(a3, o.delete_after, "--delete-after"@);
    lemma_asks_if(a4, o.delete_excluded, "--delete-excluded"@);
    lemma_asks_if(a5, o.force, "--force"@);
    lemma_asks_concat(a6, last);
    lemma_asks_nothing(last);
    lemma_not_asking("--force"@);
    lemma_long("--delete"@);
    lemma_long("--delete-before"@);
    lemma_long("--delete-during"@);
    lemma_long("--delete-after"@);
    assert("--delete"@.skip(2) =~= "delete"@);
    assert("--delete-before"@.skip(2) =~= "delete-before"@);
    assert("--delete-during"@.skip(2) =~= "delete-during"@);
    assert("--delete-after"@.skip(2) =~= "delete-after"@);
    assert("--delete-excluded"@.skip(2)[7] == 'e');
}

proof fn lemma_asks_filter(o: Options)
    requires
        !asks(texts(o.filter@)),
    ensures
        !asks(filter_args(o)),
{
    reveal_strlit("--exclude=");
    reveal_strlit("--include=");
    reveal_strlit("--filter");
    let a = arg_each("--exclude="@, texts(o.exclude@));
    let b = arg_each("--include="@, texts(o.include_patterns@));
    let c = arg_pairs("--filter"@, texts(o.filter@));
    lemma_asks_nothing(a);
    lemma_asks_nothing(b);
    lemma_asks_concat(a, b);
    lemma_asks_concat(a + b, c);
    lemma_not_asking("--filter"@);
    assert forall|i: int| 0 <= i < c.len() implies !#[trigger] asking(c[i]) by {
        if i % 2 == 1 {
            assert(c[i] == texts(o.filter@)[i / 2]);
        }
    }
}

proof fn lemma_asks_word(o: Options)
    ensures
        !asks(arg_if(flag_word(o).len() > 1, flag_word(o))),
{
    let w = flag_word(o);
    let letters = w.skip(1);
    if w.len() > 1 {
        lemma_count_word(o, '-');
        lemma_count_archive(o, '-');
        lemma_count_transfer(o, '-');
        lemma_count_mode(o, '-');
        lemma_no_such(letters, '-');
        assert(w[1] == letters[0]);
        assert(letters.contains(letters[0]));
        reveal_strlit("--");
        if is_long(w) {
            assert(w.take(2)[1] == '-');
        }
    }
}

/// The far end is asked to delete where the near end was.  A filter rule that
/// looks like such an option is taken for one, so there must be none.
pub proof fn far_end_reads_delete(o: Options)
    requires
        !delete_given(texts(o.filter@)),
    ensures
        delete_given(server_args_of(o)) == (o.delete || o.delete_before || o.delete_during
            || o.delete_after),
{
    reveal_strlit("--");
    lemma_same_question(texts(o.filter@));
    lemma_same_question(server_args_of(o));
    lemma_asks_word(o);
    lemma_asks_delete(o);
    lemma_path_args(o);
    lemma_limit_args(o);
    lemma_protocol_args(o);
    lemma_attribute_args(o);
    lemma_other_args(o);
    lemma_asks_filter(o);
    lemma_asks_nothing(path_args(o));
    lemma_asks_nothing(limit_args(o));
    lemma_asks_nothing(protocol_args(o));
    lemma_asks_nothing(attribute_args(o));
    lemma_asks_nothing(other_args(o));
    lemma_asks_all(
        arg_if(flag_word(o).len() > 1, flag_word(o)),
        delete_args(o),
        path_args(o),
        limit_args(o),
        protocol_args(o),
        attribute_args(o),
        other_args(o),
        filter_args(o),
    );
}

proof fn lemma_asks_all(
    w: Seq<Seq<char>>,
    a: Seq<Seq<char>>,
    b: Seq<Seq<char>>,
    c: Seq<Seq<char>>,
    d: Seq<Seq<char>>,
    e: Seq<Seq<char>>,
    f: Seq<Seq<char>>,
    g: Seq<Seq<char>>,
)
    ensures
        asks(w + a + b + c + d + e + f + g) == (asks(w) || asks(a) || asks(b) || asks(c) || asks(d)
            || asks(e) || asks(f) || asks(g)),
{
    lemma_asks_concat(w, a);
    lemma_asks_concat(w + a, b);
    lemma_asks_concat(w + a + b, c);
    lemma_asks_concat(w + a + b + c, d);
    lemma_asks_concat(w + a + b + c + d, e);
    lemma_asks_concat(w + a + b + c + d + e, f);
    lemma_asks_concat(w + a + b + c + d + e + f, g);
}

proof fn lemma_same_question(args: Seq<Seq<char>>)
    ensures
        delete_given(args) == asks(args),
{
    reveal_strlit("--");
    assert("--"@.len() == 2);
    if delete_given(args) {
        let i = choose|i: int|
            0 <= i < args.len() && is_long(#[trigger] args[i]) && asks_delete(
                args[i].skip("--"@.len() as int),
            );
        assert(asking(args[i]));
    }
    if asks(args) {
        let i = choose|i: int| 0 <= i < args.len() && #[trigger] asking(args[i]);
        assert(is_long(args[i]) && asks_delete(args[i].skip("--"@.len() as int)));
    }
}

// ---------------------------------------------------------------------------
// Nothing is left over
// ---------------------------------------------------------------------------

/// Whether every argument is an option or a word of letters.
spec fn no_path(args: Seq<Seq<char>>) -> bool {
    forall|i: int| 0 <= i < args.len() ==> is_long(#[trigger] args[i]) || is_word(args[i])
}

proof fn lemma_no_path(args: Seq<Seq<char>>)
    requires
        no_path(args),
    ensures
        left_over(args) == Seq::<Seq<char>>::empty(),
    decreases args.len(),
{
    if args.len() > 0 {
        assert(is_long(args[args.len() - 1]) || is_word(args[args.len() - 1]));
        lemma_no_path(args.drop_last());
    }
}

proof fn lemma_more_options(a: Seq<Seq<char>>, b: Seq<Seq<char>>)
    requires
        no_path(a),
        all_dashed(b),
    ensures
        no_path(a + b),
{
    assert forall|i: int| 0 <= i < (a + b).len() implies is_long(#[trigger] (a + b)[i]) || is_word(
        (a + b)[i],
    ) by {
        if i < a.len() {
            assert((a + b)[i] == a[i]);
        } else {
            assert((a + b)[i] == b[i - a.len()]);
            lemma_long(b[i - a.len()]);
        }
    }
}

proof fn lemma_all_options(
    w: Seq<Seq<char>>,
    a: Seq<Seq<char>>,
    b: Seq<Seq<char>>,
    c: Seq<Seq<char>>,
    d: Seq<Seq<char>>,
    e: Seq<Seq<char>>,
    f: Seq<Seq<char>>,
    g: Seq<Seq<char>>,
)
    requires
        no_path(w),
        all_dashed(a),
        all_named(b),
        all_named(c),
        all_named(d),
        all_named(e),
        all_named(f),
        all_dashed(g),
    ensures
        no_path(w + a + b + c + d + e + f + g),
{
    lemma_more_options(w, a);
    lemma_more_options(w + a, b);
    lemma_more_options(w + a + b, c);
    lemma_more_options(w + a + b + c, d);
    lemma_more_options(w + a + b + c + d, e);
    lemma_more_options(w + a + b + c + d + e, f);
    lemma_more_options(w + a + b + c + d + e + f, g);
}

proof fn lemma_word_is_word(o: Options)
    ensures
        no_path(arg_if(flag_word(o).len() > 1, flag_word(o))),
{
    let w = flag_word(o);
    if w.len() > 1 {
        lemma_asks_word(o);
        let letters = w.skip(1);
        assert(w[0] == '-');
        lemma_count_word(o, '-');
        lemma_count_archive(o, '-');
        lemma_count_transfer(o, '-');
        lemma_count_mode(o, '-');
        lemma_no_such(letters, '-');
        assert(w[1] == letters[0]);
        assert(letters.contains(letters[0]));
        reveal_strlit("--");
        if is_long(w) {
            assert(w.take(2)[1] == '-');
        }
        assert(is_word(w));
    }
}

proof fn lemma_patterns_dashed(o: Options)
    requires
        o.filter@.len() == 0,
    ensures
        all_dashed(filter_args(o)),
{
    reveal_strlit("--exclude=");
    reveal_strlit("--include=");
    let a = arg_each("--exclude="@, texts(o.exclude@));
    let b = arg_each("--include="@, texts(o.include_patterns@));
    let c = arg_pairs("--filter"@, texts(o.filter@));
    assert(all_dashed(a));
    assert(all_dashed(b));
    assert(filter_args(o) =~= a + b);
    assert forall|i: int| 0 <= i < (a + b).len() implies dashed(#[trigger] (a + b)[i]) by {
        if i < a.len() {
            assert((a + b)[i] == a[i]);
        } else {
            assert((a + b)[i] == b[i - a.len()]);
        }
    }
}

/// The far end takes none of its arguments for a path.  A filter rule is an
/// argument of its own, so there must be none.
pub proof fn far_end_finds_no_path(o: Options)
    requires
        o.filter@.len() == 0,
    ensures
        left_over(server_args_of(o)) == Seq::<Seq<char>>::empty(),
{
    lemma_word_is_word(o);
    lemma_delete_args(o);
    lemma_path_args(o);
    lemma_limit_args(o);
    lemma_protocol_args(o);
    lemma_attribute_args(o);
    lemma_other_args(o);
    lemma_patterns_dashed(o);
    lemma_all_options(
        arg_if(flag_word(o).len() > 1, flag_word(o)),
        delete_args(o),
        path_args(o),
        limit_args(o),
        protocol_args(o),
        attribute_args(o),
        other_args(o),
        filter_args(o),
    );
    lemma_no_path(server_args_of(o));
}

/// The far end reads its arguments as a whole: the flags and the deletion that
/// the near end was asked for, and no path.
pub proof fn far_end_reads_arguments(o: Options, f: ServerFlags)
    requires
        o.filter@.len() == 0,
        holds_letters(f, words_in(server_args_of(o))),
        f.delete == delete_given(server_args_of(o)),
    ensures
        left_over(server_args_of(o)) == Seq::<Seq<char>>::empty(),
        f.delete == (o.delete || o.delete_before || o.delete_during || o.delete_after),
        f.verbose == o.verbose,
        f.quiet == o.quiet,
        f.archive == o.archive,
        f.recursive == (o.archive || o.recursive),
        f.links == (o.archive || o.links),
        f.perms == (o.archive || o.perms),
        f.times == (o.archive || o.times),
        f.group == (o.archive || o.group),
        f.owner == (o.archive || o.owner),
        f.devices == (o.archive || o.devices),
        f.checksum == o.checksum,
        f.update == o.update,
        f.hard_links == o.hard_links,
        f.dry_run == o.dry_run,
        f.compress == o.compress,
{
    far_end_finds_no_path(o);
    far_end_reads_delete(o);
    far_end_reads_flags(o, f);
}

} // verus!
