//! What a command line asks for: where files go, and what the far end is told.

use vstd::prelude::*;
use vstd::seq_lib::lemma_seq_concat_contains_all_elements;

use crate::client::{
    client_carries, client_deletes, daemon_args, far_args, first_remote, module_part, plan_of, Plan,
};
use crate::laws::words::written_number_is_read;
use crate::options::{
    archive_letters, arg_each, arg_if, arg_number, arg_pairs, arg_text, char_if, flag_word,
    host_part, is_letter, mode_letters, opt_i32, opt_u32, opt_u64, remote_of, server_args_of,
    transfer_letters, user_part, Options, PathError, Remote,
};
use crate::options_laws::{far_end_reads_delete, far_end_reads_flags};
use crate::options_server::{
    delete_given, holds_letters, is_word, server_carries, words_in, ServerFlags,
};
use crate::protocol::types::opt_text;
use crate::server::{flags_merged, joined, sources_of};
use crate::text::{
    begins_with, decimal, first_index, last_index, lemma_index_from, lemma_last_index,
    signed_decimal, texts,
};
use crate::transport::local::server_command;
use crate::transport::ssh::{ssh_command_of, words_of};

verus! {

// ---------------------------------------------------------------------------
// Paths on other hosts
// ---------------------------------------------------------------------------

proof fn lemma_first(a: Seq<char>, c: char, b: Seq<char>)
    requires
        !a.contains(c),
    ensures
        first_index(a + seq![c] + b, c) == Some(a.len() as int),
{
    let s = a + seq![c] + b;
    lemma_index_from(s, c, 0);
    assert(s[a.len() as int] == c);
    match first_index(s, c) {
        Some(i) => {
            if i < a.len() {
                assert(a[i] == c);
            }
        },
        None => {},
    }
}

proof fn lemma_no_first(s: Seq<char>, c: char)
    requires
        !s.contains(c),
    ensures
        first_index(s, c) is None,
{
    lemma_index_from(s, c, 0);
    match first_index(s, c) {
        Some(i) => {
            assert(s.contains(s[i]));
        },
        None => {},
    }
}

/// Whether a text can be the name of a host, or of a user, in front of a path.
pub open spec fn can_be_host(s: Seq<char>) -> bool {
    &&& s.len() > 0
    &&& !s.contains(':')
    &&& !s.contains('/')
    &&& !s.contains('@')
    &&& !s.contains(']')
    &&& s[0] != '.'
}

/// A host with its user in front, if there is one.
pub open spec fn account(user: Option<Seq<char>>, host: Seq<char>) -> Seq<char> {
    match user {
        Some(u) => u + seq!['@'] + host,
        None => host,
    }
}

proof fn lemma_account(user: Option<Seq<char>>, host: Seq<char>)
    requires
        can_be_host(host),
        user matches Some(u) ==> can_be_host(u),
    ensures
        ({
            let s = account(user, host);
            &&& user_part(s) == user
            &&& host_part(s) == host
            &&& s.len() > 0
            &&& !s.contains(':')
            &&& !s.contains('/')
            &&& !s.contains(']')
            &&& s[0] != '/'
            &&& s[0] != '.'
        }),
{
    let s = account(user, host);
    match user {
        Some(u) => {
            lemma_first(u, '@', host);
            assert(s.take(u.len() as int) =~= u);
            assert(s.skip(u.len() as int + 1) =~= host);
            assert(s[0] == u[0]);
            assert(u.contains(u[0]));
            assert forall|i: int| 0 <= i < s.len() implies s[i] != ':' && s[i] != '/' && s[i] != ']' by {
                if i < u.len() {
                    assert(u.contains(u[i]));
                } else if i > u.len() {
                    assert(host.contains(host[i - u.len() - 1]));
                }
            }
        },
        None => {
            lemma_no_first(host, '@');
            assert(host.contains(host[0]));
        },
    }
}

/// A host, a colon and a path name that path on that host, through a shell; a
/// second colon leads to the host's own service.  The user, if one is given,
/// stands in front of the host.
pub proof fn host_and_path_are_found(user: Option<Seq<char>>, host: Seq<char>, path: Seq<char>)
    requires
        can_be_host(host),
        user matches Some(u) ==> can_be_host(u),
        user is Some || host.len() > 1,
    ensures
        path.len() > 0 && path[0] != ':' && path[0] != '/' ==> remote_of(
            account(user, host) + seq![':'] + path,
        ) == Some(Remote { user, host, port: None, path, is_daemon: false }),
        path.len() > 0 && path[0] == '/' && host.len() != 5 && user is None ==> remote_of(
            account(user, host) + seq![':'] + path,
        ) == Some(Remote { user, host, port: None, path, is_daemon: false }),
        remote_of(account(user, host) + seq![':', ':'] + path) == Some(
            Remote { user, host, port: None, path, is_daemon: true },
        ),
{
    reveal_strlit("rsync://");
    let a = account(user, host);
    lemma_account(user, host);
    let s = a + seq![':'] + path;
    lemma_first(a, ':', path);
    assert(s.take(a.len() as int) =~= a);
    assert(s.skip(a.len() as int + 1) =~= path);
    assert(s[0] == a[0]);
    if begins_with(s, "rsync://"@) {
        assert(s.take(8)[5] == ':');
        assert(s[5] == ':');
        assert(s.take(8)[6] == '/');
        assert(s[6] == '/');
        if a.len() > 5 {
            assert(a.contains(a[5]));
        }
        if a.len() < 5 {
            assert(s.take(8)[a.len() as int] == "rsync://"@[a.len() as int]);
        }
        assert(a.len() == 5);
        assert(s[6] == path[0]);
    }
    let rest = seq![':'] + path;
    let t = a + seq![':', ':'] + path;
    assert(t =~= a + seq![':'] + rest);
    lemma_first(a, ':', rest);
    assert(t.take(a.len() as int) =~= a);
    assert(t.skip(a.len() as int + 2) =~= path);
    assert(t[a.len() as int + 1] == ':');
    assert(t[0] == a[0]);
    if begins_with(t, "rsync://"@) {
        assert(t.take(8)[5] == ':');
        assert(t[5] == ':');
        assert(t.take(8)[6] == '/');
        assert(t[6] == '/');
        if a.len() > 5 {
            assert(a.contains(a[5]));
        }
        if a.len() < 5 {
            assert(t.take(8)[a.len() as int] == "rsync://"@[a.len() as int]);
        }
        assert(a.len() == 5);
        assert(t[6] == ':');
    }
}

/// A URL names a path behind the service of its host, at its port, if it has
/// one.
pub proof fn url_is_taken_apart(
    user: Option<Seq<char>>,
    host: Seq<char>,
    port: Option<u16>,
    path: Seq<char>,
)
    requires
        can_be_host(host),
        user matches Some(u) ==> can_be_host(u),
    ensures
        ({
            let at = match port {
                Some(p) => seq![':'] + decimal(p as nat),
                None => Seq::empty(),
            };
            remote_of("rsync://"@ + account(user, host) + at + seq!['/'] + path) == Some(
                Remote {
                    user,
                    host,
                    port: match port {
                        Some(p) => Some(p as nat),
                        None => None,
                    },
                    path,
                    is_daemon: true,
                },
            )
        }),
{
    reveal_strlit("rsync://");
    let a = account(user, host);
    lemma_account(user, host);
    let at = match port {
        Some(p) => seq![':'] + decimal(p as nat),
        None => Seq::<char>::empty(),
    };
    let authority = a + at;
    let s = "rsync://"@ + a + at + seq!['/'] + path;
    let rest = s.skip(8);
    assert(s.take(8) =~= "rsync://"@);
    assert(rest =~= authority + seq!['/'] + path);
    match port {
        Some(p) => {
            let digits = decimal(p as nat);
            crate::laws::shown::decimal_is_read_back(p as nat);
            written_number_is_read(p as nat, 0xffff);
            assert forall|i: int| 0 <= i < authority.len() implies authority[i] != '/'
                && authority[i] != ']' by {
                if i < a.len() {
                    assert(a.contains(a[i]));
                } else if i > a.len() {
                    assert('0' <= digits[i - a.len() - 1] <= '9');
                }
            }
            lemma_no_first(authority, ']');
            lemma_last_index(authority, ':');
            assert(authority[a.len() as int] == ':');
            assert(last_index(authority, ':') == Some(a.len() as int)) by {
                match last_index(authority, ':') {
                    Some(i) => {
                        if i > a.len() {
                            assert('0' <= digits[i - a.len() - 1] <= '9');
                        }
                    },
                    None => {},
                }
            }
            assert(authority.take(a.len() as int) =~= a);
            assert(authority.skip(a.len() as int + 1) =~= digits);
        },
        None => {
            assert(authority =~= a);
            lemma_no_first(a, ']');
            lemma_last_index(a, ':');
            match last_index(a, ':') {
                Some(i) => {
                    assert(a.contains(a[i]));
                },
                None => {},
            }
        },
    }
    assert(!authority.contains('/'));
    lemma_first(authority, '/', path);
    assert(rest.take(authority.len() as int) =~= authority);
    assert(rest.skip(authority.len() as int + 1) =~= path);
}

/// A path without a colon, one that starts with a slash or a dot, and one
/// behind a drive letter, are on this machine.
pub proof fn plain_paths_are_local(s: Seq<char>)
    ensures
        !s.contains(':') ==> remote_of(s) is None,
        s.len() > 0 && (s[0] == '/' || s[0] == '.') ==> remote_of(s) is None,
        s.len() > 1 && is_letter(s[0]) && s[1] == ':' ==> remote_of(s) is None,
{
    reveal_strlit("rsync://");
    if begins_with(s, "rsync://"@) {
        assert(s.take(8)[5] == ':');
        assert(s.contains(s[5]));
        assert(s.take(8)[0] == 'r');
        assert(s.take(8)[1] == 's');
    }
    if !s.contains(':') {
        lemma_no_first(s, ':');
    }
    if s.len() > 1 && is_letter(s[0]) && s[1] == ':' {
        lemma_index_from(s, ':', 0);
    }
}

// ---------------------------------------------------------------------------
// What is done
// ---------------------------------------------------------------------------

proof fn lemma_first_remote(paths: Seq<Seq<char>>, k: int)
    requires
        0 <= k < paths.len(),
        remote_of(paths[k]) is Some,
        forall|i: int| 0 <= i < k ==> remote_of(#[trigger] paths[i]) is None,
    ensures
        first_remote(paths) == remote_of(paths[k]),
    decreases paths.len(),
{
    if k > 0 {
        assert(remote_of(paths[0]) is None);
        assert(paths.skip(1)[k - 1] == paths[k]);
        assert forall|i: int| 0 <= i < k - 1 implies remote_of(#[trigger] paths.skip(1)[i]) is None by {
            assert(remote_of(paths[i + 1]) is None);
        }
        lemma_first_remote(paths.skip(1), k - 1);
    }
}

proof fn lemma_no_remote(paths: Seq<Seq<char>>)
    requires
        forall|i: int| 0 <= i < paths.len() ==> remote_of(#[trigger] paths[i]) is None,
    ensures
        first_remote(paths) is None,
    decreases paths.len(),
{
    if paths.len() > 0 {
        assert(remote_of(paths[0]) is None);
        assert forall|i: int| 0 <= i < paths.skip(1).len() implies remote_of(
            #[trigger] paths.skip(1)[i],
        ) is None by {
            assert(remote_of(paths[i + 1]) is None);
        }
        lemma_no_remote(paths.skip(1));
    }
}

/// Files go to the last path that is named: to another host, if that path is
/// there, and all other paths are then sent.
pub proof fn remote_destination_is_pushed_to(o: Options)
    requires
        !o.list_only,
        o.read_batch is None,
        o.args@.len() >= 2,
        remote_of(o.args@.last()@) is Some,
    ensures
        plan_of(o) matches Ok(Plan::Push { remote, sources }) && Some(remote) == remote_of(
            o.args@.last()@,
        ) && sources.len() == o.args@.len() - 1 && forall|i: int|
            0 <= i < sources.len() ==> #[trigger] sources[i] == o.args@[i]@,
{
    let args = texts(o.args@);
    assert(args.last() == o.args@.last()@);
}

/// Files come from the first other host that is named in front of a path on
/// this machine, to that path.
pub proof fn remote_source_is_pulled_from(o: Options, k: int)
    requires
        !o.list_only,
        o.read_batch is None,
        0 <= k < o.args@.len() - 1,
        remote_of(o.args@.last()@) is None,
        remote_of(o.args@[k]@) is Some,
        forall|i: int| 0 <= i < k ==> remote_of(#[trigger] o.args@[i]@) is None,
    ensures
        plan_of(o) matches Ok(Plan::Pull { remote, dest }) && Some(remote) == remote_of(
            o.args@[k]@,
        ) && dest == o.args@.last()@,
{
    let args = texts(o.args@);
    let sources = args.drop_last();
    assert(args.last() == o.args@.last()@);
    assert(sources[k] == o.args@[k]@);
    assert forall|i: int| 0 <= i < k implies remote_of(#[trigger] sources[i]) is None by {
        assert(sources[i] == o.args@[i]@);
    }
    lemma_first_remote(sources, k);
}

/// Paths that are all on this machine are copied here: all but the last one
/// into the last one.
pub proof fn local_paths_are_copied(o: Options)
    requires
        !o.list_only,
        o.read_batch is None,
        o.args@.len() >= 2,
        forall|i: int| 0 <= i < o.args@.len() ==> remote_of(#[trigger] o.args@[i]@) is None,
    ensures
        plan_of(o) matches Ok(Plan::Local { sources, dest }) && dest == o.args@.last()@
            && sources.len() == o.args@.len() - 1 && forall|i: int|
            0 <= i < sources.len() ==> #[trigger] sources[i] == o.args@[i]@,
{
    let args = texts(o.args@);
    let sources = args.drop_last();
    assert(args.last() == o.args@.last()@);
    assert(remote_of(o.args@[o.args@.len() - 1]@) is None);
    assert forall|i: int| 0 <= i < sources.len() implies remote_of(#[trigger] sources[i]) is None by {
        assert(sources[i] == o.args@[i]@);
    }
    lemma_no_remote(sources);
}

/// One path is not enough, except to list it, or to replay a batch file into
/// it.
pub proof fn one_path_is_not_enough(o: Options)
    requires
        o.args@.len() < 2,
    ensures
        !o.list_only && o.read_batch is None ==> plan_of(o) == Err::<Plan, PathError>(
            PathError::TooFewPaths(o.args@.len() as usize),
        ),
        o.list_only && o.args@.len() == 1 && remote_of(o.args@[0]@) is None ==> plan_of(o) == Ok::<
            Plan,
            PathError,
        >(Plan::List),
        !o.list_only && o.read_batch is Some && o.args@.len() == 1 ==> plan_of(o) == Ok::<
            Plan,
            PathError,
        >(Plan::ReadBatch { batch: o.read_batch->0@, dest: o.args@[0]@ }),
{
    reveal_with_fuel(first_remote, 2);
    let args = texts(o.args@);
    if args.len() == 1 {
        assert(args[0] == o.args@[0]@);
        assert(args.skip(1).len() == 0);
    }
}

// ---------------------------------------------------------------------------
// What the far end is told
// ---------------------------------------------------------------------------

/// The far end is told that it sends exactly where this side receives, and
/// otherwise hears the same either way.
pub proof fn one_side_sends(o: Options)
    ensures
        far_args(o, false) == far_args(o, true).push("--sender"@),
{
}

/// A path on a daemon is named to it as a whole: the name of the module is what
/// stands in front of the first slash, and the path is the last argument,
/// behind a dot.
pub proof fn daemon_is_asked_for_the_path(
    o: Options,
    module: Seq<char>,
    rest: Seq<char>,
    is_push: bool,
)
    requires
        !module.contains('/'),
    ensures
        ({
            let path = module + seq!['/'] + rest;
            let args = daemon_args(o, path, is_push);
            &&& module_part(path) == module
            &&& args.len() >= 2
            &&& args.last() == path
            &&& args[args.len() - 2] == seq!['.']
            &&& args.take(args.len() - 2) == far_args(o, is_push)
        }),
        ({
            let args = daemon_args(o, module, is_push);
            &&& module_part(module) == module
            &&& args.last() == module.push('/')
        }),
{
    reveal_strlit(".");
    reveal_strlit("/");
    let path = module + seq!['/'] + rest;
    lemma_first(module, '/', rest);
    lemma_no_first(module, '/');
    assert(path.take(module.len() as int) =~= module);
    assert(path.skip(module.len() as int + 1) =~= rest);
    assert(module + "/"@ + rest =~= path);
    assert(module + "/"@ + Seq::<char>::empty() =~= module.push('/'));
    assert("."@ =~= seq!['.']);
    let args = daemon_args(o, path, is_push);
    assert(args.take(args.len() - 2) =~= far_args(o, is_push));
}

/// A far end that is reached through a shell runs the program on the host, as
/// a server, on the path: the options stand between them, and the words of the
/// shell's command come first.
pub proof fn shell_runs_the_far_end(
    shell: Seq<char>,
    more: Seq<Seq<char>>,
    host: Seq<char>,
    user: Option<Seq<char>>,
    program: Seq<char>,
    args: Seq<Seq<char>>,
    path: Seq<char>,
)
    ensures
        ({
            let c = ssh_command_of(shell, more, host, user, program, args, path);
            let k = words_of(shell).len() as int + more.len();
            &&& c is Some == (words_of(shell).len() > 0)
            &&& c matches Some(ws) ==> {
                &&& ws.len() == k + args.len() + 5
                &&& ws.take(k) == words_of(shell) + more
                &&& ws[k] == account(user, host)
                &&& ws[k + 1] == program
                &&& ws[k + 2] == "--server"@
                &&& ws.subrange(k + 3, k + 3 + args.len()) == args
                &&& ws[k + 3 + args.len()] == "."@
                &&& ws.last() == path
            }
        }),
        server_command(program, args, path).take(2) == seq![program, "--server"@],
        server_command(program, args, path).last() == path,
        server_command(program, args, path).len() == args.len() + 4,
{
    match ssh_command_of(shell, more, host, user, program, args, path) {
        Some(ws) => {
            let k = words_of(shell).len() as int + more.len();
            assert(ws.take(k) =~= words_of(shell) + more);
            assert(ws.subrange(k + 3, k + 3 + args.len()) =~= args);
        },
        None => {},
    }
    assert(server_command(program, args, path).take(2) =~= seq![program, "--server"@]);
}

proof fn lemma_one(b: bool, s: Seq<char>)
    ensures
        arg_if(b, s).contains(s) == b,
{
    if b {
        assert(arg_if(b, s)[0] == s);
    }
}

proof fn lemma_one_letter(b: bool, c: char, d: char)
    ensures
        char_if(b, c).contains(d) == (b && c == d),
{
    if b {
        assert(char_if(b, c)[0] == c);
    }
}

proof fn lemma_archive_letters(o: Options, d: char)
    ensures
        archive_letters(o).contains(d) == if o.archive {
            d == 'a'
        } else {
            (d == 'r' && o.recursive) || (d == 'l' && o.links) || (d == 'p' && o.perms) || (d == 't'
                && o.times) || (d == 'g' && o.group) || (d == 'o' && o.owner) || (d == 'D'
                && o.devices)
        },
{
    broadcast use lemma_seq_concat_contains_all_elements;

    lemma_one_letter(o.recursive, 'r', d);
    lemma_one_letter(o.links, 'l', d);
    lemma_one_letter(o.perms, 'p', d);
    lemma_one_letter(o.times, 't', d);
    lemma_one_letter(o.group, 'g', d);
    lemma_one_letter(o.owner, 'o', d);
    lemma_one_letter(o.devices, 'D', d);
    if o.archive {
        assert(archive_letters(o)[0] == 'a');
    }
}

proof fn lemma_transfer_letters(o: Options, d: char)
    ensures
        transfer_letters(o).contains(d) == ((d == 'c' && o.checksum) || (d == 'u' && o.update) || (d
            == 'H' && o.hard_links) || (d == 'L' && o.copy_links) || (d == 'k' && o.keep_dirlinks)
            || (d == 'W' && o.whole_file) || (d == 'n' && o.dry_run)),
{
    broadcast use lemma_seq_concat_contains_all_elements;

    lemma_one_letter(o.checksum, 'c', d);
    lemma_one_letter(o.update, 'u', d);
    lemma_one_letter(o.hard_links, 'H', d);
    lemma_one_letter(o.copy_links, 'L', d);
    lemma_one_letter(o.keep_dirlinks, 'k', d);
    lemma_one_letter(o.whole_file, 'W', d);
    lemma_one_letter(o.dry_run, 'n', d);
}

proof fn lemma_mode_letters(o: Options, d: char)
    ensures
        mode_letters(o).contains(d) == ((d == 'R' && o.relative) || (d == 'b' && o.backup) || (d
            == 'x' && o.one_file_system) || (d == 'i' && o.itemize_changes) || (d == 'O'
            && o.omit_dir_times) || (d == 'm' && o.prune_empty_dirs) || (d == 'y' && o.fuzzy) || (d
            == 'z' && o.compress)),
{
    broadcast use lemma_seq_concat_contains_all_elements;

    lemma_one_letter(o.relative, 'R', d);
    lemma_one_letter(o.backup, 'b', d);
    lemma_one_letter(o.one_file_system, 'x', d);
    lemma_one_letter(o.itemize_changes, 'i', d);
    lemma_one_letter(o.omit_dir_times, 'O', d);
    lemma_one_letter(o.prune_empty_dirs, 'm', d);
    lemma_one_letter(o.fuzzy, 'y', d);
    lemma_one_letter(o.compress, 'z', d);
}

/// Whether an option of one letter was given.
spec fn letter_given(o: Options, d: char) -> bool {
    ||| d == '-'
    ||| d == 'v' && o.verbose > 0
    ||| d == 'q' && o.quiet
    ||| o.archive && d == 'a'
    ||| !o.archive && ((d == 'r' && o.recursive) || (d == 'l' && o.links) || (d == 'p' && o.perms)
        || (d == 't' && o.times) || (d == 'g' && o.group) || (d == 'o' && o.owner) || (d == 'D'
        && o.devices))
    ||| (d == 'c' && o.checksum) || (d == 'u' && o.update) || (d == 'H' && o.hard_links) || (d
        == 'L' && o.copy_links) || (d == 'k' && o.keep_dirlinks) || (d == 'W' && o.whole_file) || (d
        == 'n' && o.dry_run)
    ||| (d == 'R' && o.relative) || (d == 'b' && o.backup) || (d == 'x' && o.one_file_system) || (d
        == 'i' && o.itemize_changes) || (d == 'O' && o.omit_dir_times) || (d == 'm'
        && o.prune_empty_dirs) || (d == 'y' && o.fuzzy) || (d == 'z' && o.compress)
}

proof fn lemma_letter(o: Options, d: char)
    ensures
        flag_word(o).contains(d) == letter_given(o, d),
{
    let dash = seq!['-'];
    let vs = Seq::new(o.verbose as nat, |i: int| 'v');
    let quiet = char_if(o.quiet, 'q');
    assert(dash.contains(d) == (d == '-')) by {
        assert(dash[0] == '-');
    }
    assert(vs.contains(d) == (d == 'v' && o.verbose > 0)) by {
        if o.verbose > 0 {
            assert(vs[0] == 'v');
        }
    }
    lemma_one_letter(o.quiet, 'q', d);
    lemma_archive_letters(o, d);
    lemma_transfer_letters(o, d);
    lemma_mode_letters(o, d);
    let a = archive_letters(o);
    let t = transfer_letters(o);
    let m = mode_letters(o);
    lemma_seq_concat_contains_all_elements(dash, vs, d);
    lemma_seq_concat_contains_all_elements(dash + vs, quiet, d);
    lemma_seq_concat_contains_all_elements(dash + vs + quiet, a, d);
    lemma_seq_concat_contains_all_elements(dash + vs + quiet + a, t, d);
    lemma_seq_concat_contains_all_elements(dash + vs + quiet + a + t, m, d);
}

/// Each option of one letter is in the word for the far end exactly where it
/// was given.
pub proof fn letters_are_passed_on(o: Options)
    ensures
        flag_word(o)[0] == '-',
        flag_word(o).contains('v') == (o.verbose > 0),
        flag_word(o).contains('q') == o.quiet,
        flag_word(o).contains('a') == o.archive,
        flag_word(o).contains('r') == (o.recursive && !o.archive),
        flag_word(o).contains('l') == (o.links && !o.archive),
        flag_word(o).contains('p') == (o.perms && !o.archive),
        flag_word(o).contains('t') == (o.times && !o.archive),
        flag_word(o).contains('g') == (o.group && !o.archive),
        flag_word(o).contains('o') == (o.owner && !o.archive),
        flag_word(o).contains('D') == (o.devices && !o.archive),
        flag_word(o).contains('c') == o.checksum,
        flag_word(o).contains('u') == o.update,
        flag_word(o).contains('H') == o.hard_links,
        flag_word(o).contains('L') == o.copy_links,
        flag_word(o).contains('k') == o.keep_dirlinks,
        flag_word(o).contains('W') == o.whole_file,
        flag_word(o).contains('n') == o.dry_run,
        flag_word(o).contains('R') == o.relative,
        flag_word(o).contains('b') == o.backup,
        flag_word(o).contains('x') == o.one_file_system,
        flag_word(o).contains('i') == o.itemize_changes,
        flag_word(o).contains('O') == o.omit_dir_times,
        flag_word(o).contains('m') == o.prune_empty_dirs,
        flag_word(o).contains('y') == o.fuzzy,
        flag_word(o).contains('z') == o.compress,
{
    lemma_letter(o, 'v');
    lemma_letter(o, 'q');
    lemma_letter(o, 'a');
    lemma_letter(o, 'r');
    lemma_letter(o, 'l');
    lemma_letter(o, 'p');
    lemma_letter(o, 't');
    lemma_letter(o, 'g');
    lemma_letter(o, 'o');
    lemma_letter(o, 'D');
    lemma_letter(o, 'c');
    lemma_letter(o, 'u');
    lemma_letter(o, 'H');
    lemma_letter(o, 'L');
    lemma_letter(o, 'k');
    lemma_letter(o, 'W');
    lemma_letter(o, 'n');
    lemma_letter(o, 'R');
    lemma_letter(o, 'b');
    lemma_letter(o, 'x');
    lemma_letter(o, 'i');
    lemma_letter(o, 'O');
    lemma_letter(o, 'm');
    lemma_letter(o, 'y');
    lemma_letter(o, 'z');
}

/// Each option with a name of its own is passed to the far end where it was
/// given.
pub proof fn names_are_passed_on(o: Options)
    ensures
        o.delete ==> server_args_of(o).contains("--delete"@),
        o.delete_before ==> server_args_of(o).contains("--delete-before"@),
        o.delete_during ==> server_args_of(o).contains("--delete-during"@),
        o.delete_after ==> server_args_of(o).contains("--delete-after"@),
        o.delete_excluded ==> server_args_of(o).contains("--delete-excluded"@),
        o.force ==> server_args_of(o).contains("--force"@),
        o.numeric_ids ==> server_args_of(o).contains("--numeric-ids"@),
        o.copy_dirlinks ==> server_args_of(o).contains("--copy-dirlinks"@),
        o.no_implied_dirs ==> server_args_of(o).contains("--no-implied-dirs"@),
        o.partial ==> server_args_of(o).contains("--partial"@),
        o.inplace ==> server_args_of(o).contains("--inplace"@),
        o.append ==> server_args_of(o).contains("--append"@),
        o.no_whole_file ==> server_args_of(o).contains("--no-whole-file"@),
        o.progress ==> server_args_of(o).contains("--progress"@),
        o.stats ==> server_args_of(o).contains("--stats"@),
{
    broadcast use lemma_seq_concat_contains_all_elements;

    lemma_one(o.delete, "--delete"@);
    lemma_one(o.delete_before, "--delete-before"@);
    lemma_one(o.delete_during, "--delete-during"@);
    lemma_one(o.delete_after, "--delete-after"@);
    lemma_one(o.delete_excluded, "--delete-excluded"@);
    lemma_one(o.force, "--force"@);
    lemma_one(o.numeric_ids, "--numeric-ids"@);
    lemma_one(o.copy_dirlinks, "--copy-dirlinks"@);
    lemma_one(o.no_implied_dirs, "--no-implied-dirs"@);
    lemma_one(o.partial, "--partial"@);
    lemma_one(o.inplace, "--inplace"@);
    lemma_one(o.append, "--append"@);
    lemma_one(o.no_whole_file, "--no-whole-file"@);
    lemma_one(o.progress, "--progress"@);
    lemma_one(o.stats, "--stats"@);
}

/// Each further option with a name of its own is passed to the far end where it
/// was given.
pub proof fn more_names_are_passed_on(o: Options)
    ensures
        o.omit_link_times ==> server_args_of(o).contains("--omit-link-times"@),
        o.executability ==> server_args_of(o).contains("--executability"@),
        o.acls ==> server_args_of(o).contains("--acls"@),
        o.xattrs ==> server_args_of(o).contains("--xattrs"@),
        o.specials && !o.archive && !o.devices ==> server_args_of(o).contains("--specials"@),
        o.ignore_errors ==> server_args_of(o).contains("--ignore-errors"@),
        o.ignore_existing ==> server_args_of(o).contains("--ignore-existing"@),
        o.ignore_non_existing ==> server_args_of(o).contains("--ignore-non-existing"@),
        o.remove_source_files ==> server_args_of(o).contains("--remove-source-files"@),
        o.list_only ==> server_args_of(o).contains("--list-only"@),
        o.mkpath ==> server_args_of(o).contains("--mkpath"@),
        o.cvs_exclude ==> server_args_of(o).contains("--cvs-exclude"@),
{
    broadcast use lemma_seq_concat_contains_all_elements;

    lemma_one(o.omit_link_times, "--omit-link-times"@);
    lemma_one(o.executability, "--executability"@);
    lemma_one(o.acls, "--acls"@);
    lemma_one(o.xattrs, "--xattrs"@);
    lemma_one(o.specials && !o.archive && !o.devices, "--specials"@);
    lemma_one(o.ignore_errors, "--ignore-errors"@);
    lemma_one(o.ignore_existing, "--ignore-existing"@);
    lemma_one(o.ignore_non_existing, "--ignore-non-existing"@);
    lemma_one(o.remove_source_files, "--remove-source-files"@);
    lemma_one(o.list_only, "--list-only"@);
    lemma_one(o.mkpath, "--mkpath"@);
    lemma_one(o.cvs_exclude, "--cvs-exclude"@);
}

proof fn lemma_one_text(name: Seq<char>, v: Option<Seq<char>>)
    ensures
        v matches Some(s) ==> arg_text(name, v).contains(name + s),
{
    match v {
        Some(s) => {
            assert(arg_text(name, v)[0] == name + s);
        },
        None => {},
    }
}

proof fn lemma_one_number(name: Seq<char>, v: Option<int>)
    ensures
        v matches Some(n) ==> arg_number(name, v).contains(name + signed_decimal(n)),
{
    match v {
        Some(n) => {
            assert(arg_number(name, v)[0] == name + signed_decimal(n));
        },
        None => {},
    }
}

/// Each option with a value is passed to the far end with its value.
pub proof fn values_are_passed_on(o: Options)
    ensures
        o.partial_dir matches Some(s) ==> server_args_of(o).contains("--partial-dir="@ + s@),
        o.max_size matches Some(s) ==> server_args_of(o).contains("--max-size="@ + s@),
        o.min_size matches Some(s) ==> server_args_of(o).contains("--min-size="@ + s@),
        o.checksum_choice matches Some(s) ==> server_args_of(o).contains(
            "--checksum-choice="@ + s@,
        ),
        o.suffix matches Some(s) ==> server_args_of(o).contains("--suffix="@ + s@),
        o.backup_dir matches Some(s) ==> server_args_of(o).contains("--backup-dir="@ + s@),
        o.max_delete matches Some(n) ==> server_args_of(o).contains(
            "--max-delete="@ + signed_decimal(n as int),
        ),
        o.bwlimit matches Some(n) ==> server_args_of(o).contains(
            "--bwlimit="@ + signed_decimal(n as int),
        ),
        o.timeout matches Some(n) ==> server_args_of(o).contains(
            "--timeout="@ + signed_decimal(n as int),
        ),
        o.protocol matches Some(n) ==> server_args_of(o).contains(
            "--protocol="@ + signed_decimal(n as int),
        ),
        o.compress_level matches Some(n) ==> server_args_of(o).contains(
            "--compress-level="@ + signed_decimal(n as int),
        ),
{
    broadcast use lemma_seq_concat_contains_all_elements;

    lemma_one_text("--partial-dir="@, opt_text(o.partial_dir));
    lemma_one_text("--max-size="@, opt_text(o.max_size));
    lemma_one_text("--min-size="@, opt_text(o.min_size));
    lemma_one_text("--checksum-choice="@, opt_text(o.checksum_choice));
    lemma_one_text("--suffix="@, opt_text(o.suffix));
    lemma_one_text("--backup-dir="@, opt_text(o.backup_dir));
    lemma_one_number("--max-delete="@, opt_i32(o.max_delete));
    lemma_one_number("--bwlimit="@, opt_u64(o.bwlimit));
    lemma_one_number("--timeout="@, opt_u32(o.timeout));
    lemma_one_number("--protocol="@, opt_u32(o.protocol));
    lemma_one_number("--compress-level="@, opt_i32(o.compress_level));
}

/// Each pattern is passed to the far end.
pub proof fn patterns_are_passed_on(o: Options, i: int)
    ensures
        0 <= i < o.exclude@.len() ==> server_args_of(o).contains("--exclude="@ + o.exclude@[i]@),
        0 <= i < o.include_patterns@.len() ==> server_args_of(o).contains(
            "--include="@ + o.include_patterns@[i]@,
        ),
        0 <= i < o.filter@.len() ==> server_args_of(o).contains("--filter"@)
            && server_args_of(o).contains(o.filter@[i]@),
{
    broadcast use lemma_seq_concat_contains_all_elements;

    if 0 <= i < o.exclude@.len() {
        let vs = texts(o.exclude@);
        assert(arg_each("--exclude="@, vs)[i] == "--exclude="@ + vs[i]);
    }
    if 0 <= i < o.include_patterns@.len() {
        let vs = texts(o.include_patterns@);
        assert(arg_each("--include="@, vs)[i] == "--include="@ + vs[i]);
    }
    if 0 <= i < o.filter@.len() {
        let vs = texts(o.filter@);
        let pairs = arg_pairs("--filter"@, vs);
        assert((2 * i) / 2 == i && (2 * i + 1) / 2 == i);
        assert(pairs[2 * i] == "--filter"@);
        assert(pairs[2 * i + 1] == vs[i]);
    }
}

/// Both ends read the same from the options about what the file list carries
/// and about deletion, so that they can read each other's lists.
pub proof fn both_ends_carry_the_same(o: Options, f: ServerFlags)
    requires
        forall|i: int| 0 <= i < o.filter@.len() ==> !is_word(#[trigger] texts(o.filter@)[i]),
        !delete_given(texts(o.filter@)),
        holds_letters(f, words_in(server_args_of(o))),
    ensures
        client_carries(o).uid == server_carries(f).uid,
        client_carries(o).gid == server_carries(f).gid,
        client_carries(o).times == server_carries(f).times,
        client_deletes(o) == delete_given(server_args_of(o)),
        o.archive ==> client_carries(o).uid && client_carries(o).gid && client_carries(o).times,
        !o.archive ==> client_carries(o).uid == o.owner && client_carries(o).gid == o.group
            && client_carries(o).times == o.times,
        !client_carries(o).devices,
{
    far_end_reads_flags(o, f);
    far_end_reads_delete(o);
}

/// What a server was told either way holds: an option that its arguments or
/// its own options gave is set, and one that neither gave is not.
pub proof fn options_add_up(f: ServerFlags, o: Options, g: ServerFlags)
    requires
        flags_merged(f, o, g),
    ensures
        f.verbose as int <= g.verbose && o.verbose as int <= g.verbose,
        f.archive || o.archive ==> g.recursive && g.links && g.perms && g.times && g.group
            && g.owner && g.devices && g.specials,
        f.times || o.times ==> g.times,
        f.owner || o.owner ==> g.owner,
        f.group || o.group ==> g.group,
        f.recursive || o.recursive ==> g.recursive,
        f.compress || o.compress ==> g.compress,
        g.times ==> f.times || o.times || f.archive || o.archive,
        g.owner ==> f.owner || o.owner || f.archive || o.archive,
        g.group ==> f.group || o.group || f.archive || o.archive,
        g.recursive ==> f.recursive || o.recursive || f.archive || o.archive,
        g.compress ==> f.compress || o.compress,
        g.dry_run == f.dry_run && g.delete == f.delete && g.checksum == f.checksum && g.update
            == f.update && g.hard_links == f.hard_links,
{
}

/// A server starts at the first path that it is given and sends the others; a
/// single path is sent itself.
pub proof fn server_sends_what_it_is_given(first: Seq<char>, others: Seq<Seq<char>>)
    ensures
        ({
            let (start, sent) = sources_of(seq![first] + others);
            &&& start == first
            &&& others.len() > 0 ==> sent == others
            &&& others.len() == 0 ==> sent == seq![first]
        }),
{
    let paths = seq![first] + others;
    if others.len() > 0 {
        assert(paths.skip(1) =~= others);
    } else {
        assert(paths =~= seq![first]);
    }
}

/// A name below a directory is the directory, a slash and the name.
pub proof fn names_are_joined(prefix: Seq<char>, name: Seq<char>)
    ensures
        prefix.len() == 0 ==> joined(prefix, name) == name,
        prefix.len() > 0 ==> joined(prefix, name) == prefix + seq!['/'] + name,
{
    reveal_strlit("/");
    assert(prefix + "/"@ + name =~= prefix + seq!['/'] + name);
}

} // verus!
