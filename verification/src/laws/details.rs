//! Details of what is written and read: counts of several kinds, times in a
//! report, names of levels and messages, words for deletion, hosts in brackets,
//! and names, numbers and checksums of entries.

use vstd::prelude::*;
use vstd::utf8::encode_utf8;

use crate::flist::send::{fitted, id_bytes, shared, shared_len, special_bytes, Preserve};
use crate::io::bytes::signed32;
use crate::io::multiplex::code_name;
use crate::io::varint::{enc_int, enc_varint};
use crate::laws::words::written_number_is_read;
use crate::log::{level_name, printed_line, LogLevel};
use crate::options::{host_and_port, remote_of, Remote};
use crate::options_server::{asks_delete, delete_given, is_long};
use crate::protocol::constants::MsgCode;
use crate::protocol::types::{FileEntry, FileType, Stats};
use crate::report::{counts_line, holds_part, time_lines, Counts, Figures};
use crate::text::{begins_with, decimal, first_index, lemma_index_from};
use crate::util::big_text;

verus! {

// ---------------------------------------------------------------------------
// Reports
// ---------------------------------------------------------------------------

/// A count of regular files and directories names both, in this order, with a
/// comma between them, in brackets behind the total.
pub proof fn kinds_are_told_in_order(prefix: Seq<char>, files: i32, dirs: i32)
    requires
        0 < files,
        0 < dirs,
        files + dirs <= i32::MAX,
    ensures
        counts_line(
            prefix,
            Counts { total: (files + dirs) as i32, dirs, links: 0, devices: 0, specials: 0 },
        ) == prefix + ": "@ + big_text(files + dirs) + (" ("@ + "reg"@ + ": "@ + big_text(
            files as int,
        ) + ", "@ + "dir"@ + ": "@ + big_text(dirs as int) + ")"@) + "\n"@,
{
    reveal_strlit(" (");
    reveal_strlit("reg");
    reveal_strlit(": ");
    let none = Seq::<char>::empty();
    assert(none + " ("@ =~= " ("@);
    let first = " ("@ + "reg"@ + ": "@ + big_text(files as int);
    assert(first.len() > 0);
}

/// The time that building the list took is told where it was taken, and not
/// otherwise.
pub proof fn times_are_told_where_taken(s: Stats, f: Figures)
    ensures
        s.flist_buildtime == 0 ==> time_lines(s, f) == Seq::<char>::empty(),
        s.flist_buildtime != 0 ==> holds_part(time_lines(s, f), "File list generation time: "@ + f.build@),
{
    if s.flist_buildtime != 0 {
        let t = time_lines(s, f);
        let part = "File list generation time: "@ + f.build@;
        assert(t.subrange(0, 0 + part.len() as int) =~= part);
    }
}

/// Errors and warnings name their level between the process and the message, and
/// no two levels have one name.
pub proof fn levels_are_named(who: Seq<char>, msg: Seq<char>, a: LogLevel, b: LogLevel)
    ensures
        a is Error || a is Warning ==> printed_line(a, who, msg) == "["@ + who + "] "@ + level_name(
            a,
        ) + ": "@ + msg,
        level_name(a) == level_name(b) ==> a == b,
{
    reveal_strlit("ERROR");
    reveal_strlit("WARNING");
    reveal_strlit("INFO");
    reveal_strlit("DEBUG");
    reveal_strlit("] ");
    reveal_strlit(": ");
    reveal_strlit("] ERROR: ");
    reveal_strlit("] WARNING: ");
    assert("] "@ + "ERROR"@ + ": "@ =~= "] ERROR: "@);
    assert("] "@ + "WARNING"@ + ": "@ =~= "] WARNING: "@);
    let s = "["@ + who + "] "@ + level_name(a) + ": "@ + msg;
    assert(s =~= "["@ + who + ("] "@ + level_name(a) + ": "@) + msg);
    assert("ERROR"@[0] == 'E' && "DEBUG"@[0] == 'D');
}

/// No two kinds of messages have one name.
pub proof fn messages_are_told_apart(a: MsgCode, b: MsgCode)
    ensures
        code_name(a)@ == code_name(b)@ ==> a == b,
{
    reveal_strlit("Data");
    reveal_strlit("ErrorXfer");
    reveal_strlit("Info");
    reveal_strlit("Error");
    reveal_strlit("Warning");
    reveal_strlit("ErrorSocket");
    reveal_strlit("Log");
    reveal_strlit("Client");
    reveal_strlit("ErrorUtf8");
    reveal_strlit("Redo");
    reveal_strlit("Stats");
    reveal_strlit("IoError");
    reveal_strlit("IoTimeout");
    reveal_strlit("Noop");
    reveal_strlit("ErrorExit");
    reveal_strlit("Success");
    reveal_strlit("Deleted");
    reveal_strlit("NoSend");
    let x = code_name(a)@;
    let y = code_name(b)@;
    if x == y {
        assert(x.len() == y.len());
        assert(x[0] == y[0]);
        assert(x.len() > 5 ==> x[5] == y[5] && x[2] == y[2]);
    }
}

// ---------------------------------------------------------------------------
// Deletion
// ---------------------------------------------------------------------------

/// A far end deletes where one of its arguments is an option for deletion, at
/// whatever moment, and in no other case.
pub proof fn far_end_deletes_where_told(args: Seq<Seq<char>>)
    ensures
        delete_given(args) <==> args.contains("--delete"@) || args.contains("--delete-before"@)
            || args.contains("--delete-during"@) || args.contains("--delete-after"@),
{
    assert forall|i: int| 0 <= i < args.len() implies (is_long(#[trigger] args[i]) && asks_delete(
        args[i].skip("--"@.len() as int),
    )) == is_deletion(args[i]) by {
        lemma_deletion(args[i]);
    }
    if args.contains("--delete"@) {
        let i = choose|i: int| 0 <= i < args.len() && args[i] == "--delete"@;
        assert(is_deletion(args[i]));
    }
    if args.contains("--delete-before"@) {
        let i = choose|i: int| 0 <= i < args.len() && args[i] == "--delete-before"@;
        assert(is_deletion(args[i]));
    }
    if args.contains("--delete-during"@) {
        let i = choose|i: int| 0 <= i < args.len() && args[i] == "--delete-during"@;
        assert(is_deletion(args[i]));
    }
    if args.contains("--delete-after"@) {
        let i = choose|i: int| 0 <= i < args.len() && args[i] == "--delete-after"@;
        assert(is_deletion(args[i]));
    }
}

spec fn is_deletion(arg: Seq<char>) -> bool {
    arg == "--delete"@ || arg == "--delete-before"@ || arg == "--delete-during"@ || arg
        == "--delete-after"@
}

proof fn lemma_deletion(arg: Seq<char>)
    ensures
        (is_long(arg) && asks_delete(arg.skip("--"@.len() as int))) == is_deletion(arg),
{
    reveal_strlit("--");
    reveal_strlit("delete");
    reveal_strlit("delete-before");
    reveal_strlit("delete-during");
    reveal_strlit("delete-after");
    reveal_strlit("--delete");
    reveal_strlit("--delete-before");
    reveal_strlit("--delete-during");
    reveal_strlit("--delete-after");
    assert("--"@ + "delete"@ =~= "--delete"@);
    assert("--"@ + "delete-before"@ =~= "--delete-before"@);
    assert("--"@ + "delete-during"@ =~= "--delete-during"@);
    assert("--"@ + "delete-after"@ =~= "--delete-after"@);
    lemma_behind("--"@, "delete"@);
    lemma_behind("--"@, "delete-before"@);
    lemma_behind("--"@, "delete-during"@);
    lemma_behind("--"@, "delete-after"@);
    if is_long(arg) {
        assert(arg =~= "--"@ + arg.skip("--"@.len() as int)) by {
            assert(arg.take(2) =~= "--"@);
        }
    }
}

proof fn lemma_behind(front: Seq<char>, rest: Seq<char>)
    ensures
        begins_with(front + rest, front),
        (front + rest).skip(front.len() as int) == rest,
{
    assert((front + rest).take(front.len() as int) =~= front);
    assert((front + rest).skip(front.len() as int) =~= rest);
}

// ---------------------------------------------------------------------------
// Hosts in brackets
// ---------------------------------------------------------------------------

/// A host in brackets may hold colons: the port stands behind the brackets, and
/// the brackets stay.
pub proof fn brackets_hold_colons(inner: Seq<char>, port: u16, path: Seq<char>)
    requires
        !inner.contains(']'),
        !inner.contains('/'),
        !inner.contains('@'),
    ensures
        ({
            let host = seq!['['] + inner + seq![']'];
            &&& remote_of("rsync://"@ + host + seq![':'] + decimal(port as nat) + seq!['/'] + path)
                == Some(
                Remote { user: None, host, port: Some(port as nat), path, is_daemon: true },
            )
            &&& remote_of("rsync://"@ + host + seq!['/'] + path) == Some(
                Remote { user: None, host, port: None, path, is_daemon: true },
            )
        }),
{
    let host = seq!['['] + inner + seq![']'];
    let digits = decimal(port as nat);
    let with = host + seq![':'] + digits;
    lemma_host(inner);
    assert forall|i: int| 0 <= i < with.len() implies with[i] != '/' by {
        crate::laws::shown::decimal_is_read_back(port as nat);
        if i > host.len() {
            assert('0' <= digits[i - host.len() - 1] <= '9');
        }
    }
    assert(host_and_port(with) == (host, Some(port as nat))) by {
        let n = host.len() as int;
        lemma_bracket(with, n - 1);
        written_number_is_read(port as nat, 0xffff);
        assert(with.take(n) =~= host);
        assert(with.skip(n + 1) =~= digits);
    }
    assert(host_and_port(host) == (host, None::<nat>)) by {
        let n = host.len() as int;
        lemma_bracket(host, n - 1);
        assert(host.take(n) =~= host);
    }
    lemma_url(with, path);
    lemma_url(host, path);
    assert("rsync://"@ + host + seq![':'] + digits + seq!['/'] + path == "rsync://"@ + (with + seq![
        '/',
    ] + path)) by {
        lemma_joined("rsync://"@, host, seq![':'], digits, seq!['/'] + path);
        assert("rsync://"@ + host + seq![':'] + digits + seq!['/'] + path =~= "rsync://"@ + host + seq![
            ':',
        ] + digits + (seq!['/'] + path));
        assert(with + (seq!['/'] + path) =~= with + seq!['/'] + path);
    }
    assert("rsync://"@ + host + seq!['/'] + path =~= "rsync://"@ + (host + seq!['/'] + path));
}

proof fn lemma_joined(a: Seq<char>, b: Seq<char>, c: Seq<char>, d: Seq<char>, e: Seq<char>)
    ensures
        a + b + c + d + e == a + (b + c + d + e),
{
    assert(a + b + c + d + e =~= a + (b + c + d + e));
}

proof fn lemma_host(inner: Seq<char>)
    requires
        !inner.contains(']'),
        !inner.contains('/'),
        !inner.contains('@'),
    ensures
        ({
            let host = seq!['['] + inner + seq![']'];
            &&& forall|i: int|
                0 <= i < host.len() ==> host[i] != '/' && host[i] != '@' && (host[i] == ']') == (i
                    == host.len() - 1)
            &&& first_index(host, '@') is None
        }),
{
    let host = seq!['['] + inner + seq![']'];
    assert forall|i: int| 0 <= i < host.len() implies host[i] != '/' && host[i] != '@' && (host[i]
        == ']') == (i == host.len() - 1) by {
        if 0 < i < host.len() - 1 {
            assert(inner.contains(inner[i - 1]));
        }
    }
    lemma_first_at(host, '@');
}

proof fn lemma_url(authority: Seq<char>, path: Seq<char>)
    requires
        forall|i: int| 0 <= i < authority.len() ==> authority[i] != '/',
        host_and_port(authority).0.len() > 0,
        first_index(host_and_port(authority).0, '@') is None,
    ensures
        remote_of("rsync://"@ + (authority + seq!['/'] + path)) == Some(
            Remote {
                user: None,
                host: host_and_port(authority).0,
                port: host_and_port(authority).1,
                path,
                is_daemon: true,
            },
        ),
{
    lemma_behind("rsync://"@, authority + seq!['/'] + path);
    lemma_authority(authority, path);
}

proof fn lemma_first_at(s: Seq<char>, c: char)
    requires
        forall|i: int| 0 <= i < s.len() ==> s[i] != c,
    ensures
        first_index(s, c) is None,
{
    lemma_index_from(s, c, 0);
}

proof fn lemma_authority(a: Seq<char>, path: Seq<char>)
    requires
        forall|i: int| 0 <= i < a.len() ==> a[i] != '/',
    ensures
        ({
            let s = a + seq!['/'] + path;
            &&& first_index(s, '/') == Some(a.len() as int)
            &&& s.take(a.len() as int) == a
            &&& s.skip(a.len() as int + 1) == path
        }),
{
    let s = a + seq!['/'] + path;
    lemma_index_from(s, '/', 0);
    assert(s[a.len() as int] == '/');
    match first_index(s, '/') {
        Some(i) => {
            if i < a.len() {
                assert(s[i] == a[i]);
            }
        },
        None => {},
    }
    assert(s.take(a.len() as int) =~= a);
    assert(s.skip(a.len() as int + 1) =~= path);
}

proof fn lemma_bracket(s: Seq<char>, k: int)
    requires
        0 <= k < s.len(),
        s[k] == ']',
        forall|i: int| 0 <= i < k ==> s[i] != ']',
    ensures
        first_index(s, ']') == Some(k),
{
    lemma_index_from(s, ']', 0);
}

// ---------------------------------------------------------------------------
// Entries
// ---------------------------------------------------------------------------

/// What a name leaves to the one before it is the whole front that the two have
/// in common, as far as one byte can count it.
pub proof fn whole_common_front_is_left_out(before: FileEntry, f: FileEntry, n: nat)
    ensures
        ({
            let a = encode_utf8(f.path());
            let b = encode_utf8(before.path());
            let common = n <= a.len() && n <= b.len() && a.take(n as int) == b.take(n as int);
            n <= shared_len(Some(before), f) <==> common && n <= 255
        }),
{
    let a = encode_utf8(f.path());
    let b = encode_utf8(before.path());
    lemma_shared(a, b, 0);
    let k = shared(a, b, 0);
    if n <= a.len() && n <= b.len() {
        if n <= k {
            assert(a.take(n as int) =~= b.take(n as int));
        } else if n <= 255 && a.take(n as int) == b.take(n as int) {
            assert(a.take(n as int)[k as int] == b.take(n as int)[k as int]);
        }
    }
}

proof fn lemma_shared(a: Seq<u8>, b: Seq<u8>, k: nat)
    requires
        k <= 255,
        k <= a.len(),
        k <= b.len(),
    ensures
        ({
            let e = shared(a, b, k);
            &&& k <= e <= 255
            &&& e <= a.len()
            &&& e <= b.len()
            &&& forall|i: int| k <= i < e ==> a[i] == b[i]
            &&& e < 255 && e < a.len() && e < b.len() ==> a[e as int] != b[e as int]
        }),
    decreases 255 - k,
{
    if k < 255 && k < a.len() && k < b.len() && a[k as int] == b[k as int] {
        lemma_shared(a, b, k + 1);
    }
}

/// The number of a user or group goes in as few bytes as it needs from protocol
/// 30 on, and in four below it.
pub proof fn numbers_of_users_go_by_protocol(id: u32, protocol: u32)
    ensures
        protocol >= 30 ==> id_bytes(id, protocol) == enc_varint(signed32(id as nat)),
        protocol < 30 ==> id_bytes(id, protocol) == enc_int(signed32(id as nat)),
{
}

/// A regular file without a checksum carries zeros in its place, and one whose
/// checksum is longer carries the front of it.
pub proof fn missing_checksums_are_zeros(f: FileEntry, protocol: u32, n: nat, p: Preserve, i: int)
    requires
        f.file_type() == FileType::Regular,
        n > 0,
        0 <= i < n,
    ensures
        special_bytes(f, protocol, n, p).len() == n,
        f.checksum is None ==> special_bytes(f, protocol, n, p)[i] == 0,
        f.checksum matches Some(sum) ==> special_bytes(f, protocol, n, p)[i] == if i < sum.len() {
            sum[i]
        } else {
            0
        },
{
    let b = special_bytes(f, protocol, n, p);
    assert(b =~= fitted(f.checksum, n));
}

} // verus!
