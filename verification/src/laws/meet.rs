//! What the two ends of a connection make of each other's version and lines,
//! what `-a` stands for, and how large numbers are written.

use vstd::prelude::*;

use crate::flags::flag_set;
use crate::flist::send::{end_bytes, Preserve};
use crate::io::varint::enc_varint;
use crate::laws::modules::lemma_major;
use crate::laws::wire::variable_integers_are_short;
use crate::laws::words::{line_ends_go, written_number_is_read, written_signed_number_is_read};
use crate::options::{archive_expanded, Options};
use crate::options_server::{flags_expanded, ServerFlags};
use crate::session::offered_flags;
use crate::setup::{client_versioned, server_versioned, ClientStage, ServerSetup, ServerStage};
use crate::text::{begins_with, decimal, first_index, lemma_index_from, signed_decimal};
use crate::transport::daemon::{client_step, Action, ClientState, Failure};
use crate::util::{big_text, comma_text, unit_base};

verus! {

// ---------------------------------------------------------------------------
// The daemon's lines
// ---------------------------------------------------------------------------

/// A client speaks the older of its own version and the daemon's, and gives up
/// on a daemon that is older than version 20.
pub proof fn client_speaks_the_older_version(
    version: u32,
    tail: Seq<char>,
    module: Seq<char>,
    args: Seq<Seq<char>>,
    buffered: usize,
)
    requires
        !tail.contains('\n'),
        !tail.contains('\r'),
    ensures
        ({
            let line = "@RSYNCD: "@ + decimal(version as nat) + seq!['.'] + tail;
            let (state, action) = client_step(ClientState::Greeting, module, args, line, buffered);
            &&& version < 20 ==> state == ClientState::Closed && action == Action::Fail(
                Failure::TooOld(version),
            )
            &&& 20 <= version <= 31 ==> state == ClientState::Approval(version) && action is Send
            &&& version > 31 ==> state == ClientState::Approval(31) && action is Send
        }),
{
    reveal_strlit("@RSYNCD: ");
    let digits = decimal(version as nat);
    let line = "@RSYNCD: "@ + digits + seq!['.'] + tail;
    assert(line.skip(line.len() - tail.len()) =~= tail);
    lemma_no_line_end(line, tail);
    assert(line.take(9) =~= "@RSYNCD: "@);
    assert(line.skip(9) =~= digits + (seq!['.'] + tail));
    crate::laws::shown::decimal_is_read_back(version as nat);
    lemma_major(digits, seq!['.'] + tail);
    written_number_is_read(version as nat, 0xffff_ffff);
}

proof fn lemma_no_line_end(line: Seq<char>, tail: Seq<char>)
    requires
        line.len() > tail.len(),
        line.skip(line.len() - tail.len()) == tail,
        line[line.len() - tail.len() - 1] != '\n',
        line[line.len() - tail.len() - 1] != '\r',
        !tail.contains('\n'),
        !tail.contains('\r'),
    ensures
        crate::text::without_line_end(line) == line,
{
    if tail.len() > 0 {
        assert(tail.contains(tail.last()));
        assert(line.last() == tail.last());
    }
    line_ends_go(line, Seq::empty());
    assert(line + Seq::<char>::empty() =~= line);
}

/// A client gives up where it is asked for a password, where the daemon's first
/// line is no greeting, and where the daemon goes on before it has the
/// arguments.
pub proof fn client_gives_up_where_it_must(
    line: Seq<char>,
    tail: Seq<char>,
    protocol: u32,
    module: Seq<char>,
    args: Seq<Seq<char>>,
    buffered: usize,
)
    requires
        !tail.contains('\n'),
        !tail.contains('\r'),
        !line.contains('\n'),
        !line.contains('\r'),
    ensures
        client_step(
            ClientState::Approval(protocol),
            module,
            args,
            "@RSYNCD: "@ + "AUTHREQD "@ + tail,
            buffered,
        ) == (ClientState::Closed, Action::Fail(Failure::AuthRequired)),
        line.len() == 0 || line[0] != '@' ==> client_step(
            ClientState::Greeting,
            module,
            args,
            line,
            buffered,
        ) == (ClientState::Closed, Action::Fail(Failure::BadGreeting(line))),
        buffered > 0 ==> client_step(
            ClientState::Approval(protocol),
            module,
            args,
            "@RSYNCD: "@ + "OK"@,
            buffered,
        ) == (ClientState::Closed, Action::Fail(Failure::ExtraBytes(buffered))),
{
    reveal_strlit("@RSYNCD: ");
    reveal_strlit("AUTHREQD ");
    reveal_strlit("OK");
    reveal_strlit("EXIT");
    let ask = "@RSYNCD: "@ + "AUTHREQD "@ + tail;
    assert(ask[ask.len() - tail.len() - 1] == ' ');
    assert(ask.skip(ask.len() - tail.len()) =~= tail);
    lemma_no_line_end(ask, tail);
    assert(ask.take(9) =~= "@RSYNCD: "@);
    let rest = ask.skip(9);
    assert(rest =~= "AUTHREQD "@ + tail);
    assert(rest[0] == 'A');
    assert(rest.take(9) =~= "AUTHREQD "@);
    assert("OK"@[0] == 'O' && "EXIT"@[0] == 'E');
    let grant = "@RSYNCD: "@ + "OK"@;
    assert(grant.last() == 'K');
    line_ends_go(grant, Seq::empty());
    assert(grant + Seq::<char>::empty() =~= grant);
    assert(grant.take(9) =~= "@RSYNCD: "@);
    assert(grant.skip(9) =~= "OK"@);
    if line.len() > 0 {
        assert(line.contains(line.last()));
    }
    line_ends_go(line, Seq::empty());
    assert(line + Seq::<char>::empty() =~= line);
    if begins_with(line, "@RSYNCD: "@) {
        assert(line.take(9)[0] == '@');
    }
}

/// A line of the daemon that is no word of the conversation is shown, as it
/// is, and the client goes on waiting.
pub proof fn other_lines_are_shown(
    line: Seq<char>,
    protocol: u32,
    module: Seq<char>,
    args: Seq<Seq<char>>,
    buffered: usize,
)
    requires
        !line.contains('\n'),
        !line.contains('\r'),
        line.len() == 0 || line[0] != '@',
    ensures
        client_step(ClientState::Approval(protocol), module, args, line.push('\n'), buffered) == (
            ClientState::Approval(protocol),
            Action::Show(line),
        ),
{
    reveal_strlit("@RSYNCD: ");
    reveal_strlit("@ERROR");
    if line.len() > 0 {
        assert(line.contains(line.last()));
    }
    line_ends_go(line, seq!['\n']);
    assert(line + seq!['\n'] =~= line.push('\n'));
    if begins_with(line, "@RSYNCD: "@) {
        assert(line.take(9)[0] == '@');
    }
    if begins_with(line, "@ERROR"@) {
        assert(line.take(6)[0] == '@');
    }
}

// ---------------------------------------------------------------------------
// Versions
// ---------------------------------------------------------------------------

/// Below version 30 nothing more is settled: both sides are ready as soon as
/// the version is known, with the same terms, without a seed and without
/// compression.  From 30 on both go on.
pub proof fn old_versions_settle_nothing_more(s: ServerSetup, protocol: u32)
    ensures
        protocol < 30 ==> (server_versioned(s, protocol) matches ServerStage::Ready(t) && t.protocol
            == protocol && t.seed == 0 && !t.use_zlib && t.compat_flags == 0 && client_versioned(
            s.checksum,
            protocol,
        ) == ClientStage::Ready(t)),
        protocol >= 30 ==> server_versioned(s, protocol) is Lists && client_versioned(
            s.checksum,
            protocol,
        ) is Offer,
{
}

/// A server offers flags of variable length in the file list, and never a list
/// in pieces.
pub proof fn lists_are_offered_whole()
    ensures
        flag_set(offered_flags(), 0x80),
        flag_set(offered_flags(), 0x8),
        !flag_set(offered_flags(), 0x1),
{
}

/// A file list ends with a zero and the errors so far; behind them, an empty
/// table for users and one for groups, where they are kept.
pub proof fn lists_end_with_a_zero(io_error: i32, p: Preserve)
    ensures
        ({
            let b = end_bytes(31, io_error, p, offered_flags());
            let n: int = (if p.uid {
                1int
            } else {
                0
            }) + if p.gid {
                1int
            } else {
                0
            };
            let e = enc_varint(io_error);
            &&& b.len() == 1 + e.len() + n
            &&& b[0] == 0
            &&& b.subrange(1, 1 + e.len() as int) == e
            &&& forall|k: int| 1 + e.len() <= k < b.len() ==> #[trigger] b[k] == 0
        }),
{
    variable_integers_are_short(0);
    let b = end_bytes(31, io_error, p, offered_flags());
    let e = enc_varint(io_error);
    assert(flag_set(offered_flags(), 0x80) && !flag_set(offered_flags(), 0x1));
    assert(enc_varint(0) == seq![0u8]);
    assert(b.subrange(1, 1 + e.len() as int) =~= e);
}

// ---------------------------------------------------------------------------
// Options
// ---------------------------------------------------------------------------

/// `-a` stands for seven options and nothing else: hard links, checksums,
/// deletion and all other options stay as they were given; and without `-a`
/// none changes.
pub proof fn archive_stands_for_no_more(before: Options, after: Options)
    requires
        archive_expanded(before, after),
    ensures
        after.hard_links == before.hard_links,
        after.acls == before.acls,
        after.xattrs == before.xattrs,
        after.checksum == before.checksum,
        after.delete == before.delete,
        after.compress == before.compress,
        after.dry_run == before.dry_run,
        after.update == before.update,
        after.executability == before.executability,
        after.numeric_ids == before.numeric_ids,
        after.args == before.args,
        after.archive == before.archive,
        !before.archive ==> after == before,
        before.recursive ==> after.recursive,
        before.perms ==> after.perms,
{
}

/// The letter `a` stands for the same to a server.
pub proof fn letter_stands_for_no_more(f: ServerFlags)
    ensures
        ({
            let g = flags_expanded(f);
            &&& g.hard_links == f.hard_links && g.checksum == f.checksum && g.delete == f.delete
                && g.compress == f.compress && g.dry_run == f.dry_run && g.update == f.update
                && g.xattrs == f.xattrs && g.archive == f.archive
            &&& f.archive ==> g.recursive && g.links && g.perms && g.times && g.group && g.owner
                && g.devices && g.specials
            &&& !f.archive ==> g == f
        }),
{
}

// ---------------------------------------------------------------------------
// Numbers
// ---------------------------------------------------------------------------

/// Commas go into the whole part of a fraction, and the rest stays as it is.
pub proof fn fractions_keep_their_digits(n: i64, rest: Seq<char>)
    ensures
        comma_text(signed_decimal(n as int) + seq!['.'] + rest) == big_text(n as int) + seq!['.']
            + rest,
        comma_text(signed_decimal(n as int)) == big_text(n as int),
{
    let whole = signed_decimal(n as int);
    let s = whole + seq!['.'] + rest;
    written_signed_number_is_read(n);
    assert forall|i: int| 0 <= i < whole.len() implies whole[i] != '.' by {
        lemma_signed_digits(n as int, i);
    }
    lemma_index_from(s, '.', 0);
    assert(s[whole.len() as int] == '.');
    match first_index(s, '.') {
        Some(i) => {
            if i < whole.len() {
                assert(s[i] == whole[i]);
            }
            assert(s.take(i) =~= whole);
            assert(s.skip(i) =~= seq!['.'] + rest);
        },
        None => {},
    }
    lemma_index_from(whole, '.', 0);
    assert(comma_text(s) =~= big_text(n as int) + seq!['.'] + rest);
    assert(comma_text(whole) =~= big_text(n as int));
}

proof fn lemma_signed_digits(x: int, i: int)
    requires
        0 <= i < signed_decimal(x).len(),
    ensures
        signed_decimal(x)[i] != '.',
{
    let m: nat = if x < 0 {
        (-x) as nat
    } else {
        x as nat
    };
    crate::laws::shown::decimal_is_read_back(m);
    let d = decimal(m);
    if x < 0 {
        if i > 0 {
            assert('0' <= d[i - 1] <= '9');
        }
    } else {
        assert('0' <= d[i] <= '9');
    }
}

/// Units are counted in thousands at the first level and in powers of two from
/// the second on; there are none at level zero.
pub proof fn units_go_by_level(level: u8)
    ensures
        (unit_base(level) is None) == (level == 0),
        level == 1 ==> unit_base(level) == Some(1000u64),
        level >= 2 ==> unit_base(level) == Some(1024u64),
{
}

} // verus!
