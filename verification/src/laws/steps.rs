//! Single steps of the two sides: what is asked, what comes in, what is read
//! through frames, and what the script of a batch file runs.

use vstd::prelude::*;

use crate::batch::{
    piece_if, quoted, repeated, script_attributes, script_excludes, script_head, script_tail,
    script_text,
};
use crate::daemon::{session_step, Config, Reply, Stage};
use crate::delta::match_blocks::{
    parse_sum_bufs, parse_sum_head, sum_bufs_bytes, sum_head_bytes, sum_head_round_trip,
};
use crate::delta::token::{enc_tokens, sendable_token, token_stream_round_trip, TokenModel};
use crate::flist::send::has_rdev;
use crate::io::multiplex::{dec_header, frame, read_some, Message};
use crate::io::parse::lemma_parse_int;
use crate::io::varint::enc_int;
use crate::laws::wire::{
    frames_say_length_and_kind, integers_go_lowest_byte_first, layouts_go_as_four_integers,
};
use crate::laws::told::{lemma_itself, lemma_wider, lemma_within, within};
use crate::laws::words::line_ends_go;
use crate::options::Options;
use crate::options_server::{is_option, unknown_letters, word_tail};
use crate::pipeline::generator::{head_of, no_head, request_bytes, sums_of};
use crate::pipeline::receiver::{parse_arrival, Incoming, ReceiveError};
use crate::pipeline::sender::{file_at, sums_step, skipped_bytes, SenderModel, SenderNext, SenderStage};
use crate::pipeline::sum_len_of;
use crate::protocol::constants::{CsumType, MsgCode, NDX_DONE};
use crate::protocol::types::{no_stats, FileList, FileType, SumHead};
use crate::report::holds_part;
use crate::text::{first_index, lemma_index_from, texts};

verus! {

// ---------------------------------------------------------------------------
// Requests and arrivals
// ---------------------------------------------------------------------------

/// The list of modules can be asked for by a word, and no other word that
/// starts with a hash is known.
pub proof fn modules_are_listed_on_request(config: Config, name: Seq<char>)
    requires
        !name.contains('\n'),
        !name.contains('\r'),
    ensures
        session_step(Stage::Module, config, "#list"@.push('\n')) == (Stage::Closed, Reply::List),
        name.len() > 0 && name[0] == '#' && name != "#list"@ ==> session_step(
            Stage::Module,
            config,
            name.push('\n'),
        ) == (Stage::Closed, Reply::Refuse("@ERROR: Unknown command '"@ + name + "'\n"@)),
{
    reveal_strlit("#list");
    let list = "#list"@;
    assert(list.last() == 't');
    line_ends_go(list, seq!['\n']);
    assert(list + seq!['\n'] =~= list.push('\n'));
    if name.len() > 0 {
        assert(name.contains(name.last()));
        line_ends_go(name, seq!['\n']);
        assert(name + seq!['\n'] =~= name.push('\n'));
    }
}

/// Devices carry a device number in the list, and other special files do so
/// below protocol 31; nothing else does.
pub proof fn devices_carry_their_number(protocol: u32)
    ensures
        has_rdev(FileType::Device, protocol),
        has_rdev(FileType::Special, protocol) == (protocol < 31),
        !has_rdev(FileType::Regular, protocol),
        !has_rdev(FileType::Dir, protocol),
        !has_rdev(FileType::Symlink, protocol),
{
}

/// Where the checksums for a file are read, a regular file of the list is to
/// be sent, under its path and with these checksums; anything else is answered
/// at once, without data.
pub proof fn only_regular_files_are_sent(m: SenderModel, l: FileList, ndx: i32, i: int)
    requires
        0 <= i < l.files@.len(),
        ndx == l.ndx_start + i,
        parse_sum_head(m.input) is Ok,
        parse_sum_bufs(parse_sum_head(m.input)->Ok_0.1, parse_sum_head(m.input)->Ok_0.0) is Ok,
    ensures
        ({
            let f = l.files@[i]@;
            let (head, r1) = parse_sum_head(m.input)->Ok_0;
            let (sums, r2) = parse_sum_bufs(r1, head)->Ok_0;
            &&& f.file_type() == FileType::Regular ==> (sums_step(m, l, ndx) matches SenderNext::File(
                n,
                job,
            ) && job.ndx == ndx && job.path == f.path() && job.head == head && job.sums == sums
                && n.output == m.output && n.input == r2)
            &&& f.file_type() != FileType::Regular ==> (sums_step(m, l, ndx) matches SenderNext::Go(
                n,
            ) && n.output == m.output + skipped_bytes(head) && n.input == r2 && n.stage
                == SenderStage::Request)
        }),
{
    assert(file_at(l, ndx) == Some(l.files@[i]@));
}

/// A request names the file, then the layout of what is there of it, and then
/// the checksums of its blocks; where nothing is there, nothing follows the
/// layout.
pub proof fn requests_name_file_and_layout(ndx: i32, data: Seq<u8>, ct: CsumType)
    ensures
        ({
            let b = request_bytes(ndx, Some(data), ct);
            let h = head_of(data.len() as int, sum_len_of(ct));
            &&& b.len() >= 20
            &&& b.take(4) == enc_int(ndx)
            &&& b.subrange(4, 20) == sum_head_bytes(h)
            &&& b.skip(20) == sum_bufs_bytes(sums_of(data, h, ct, 0, false))
        }),
        ({
            let b = request_bytes(ndx, None, ct);
            &&& b.len() == 20
            &&& b.take(4) == enc_int(ndx)
            &&& b.skip(4) == sum_head_bytes(no_head(sum_len_of(ct)))
        }),
{
    let h = head_of(data.len() as int, sum_len_of(ct));
    integers_go_lowest_byte_first(ndx);
    layouts_go_as_four_integers(h);
    layouts_go_as_four_integers(no_head(sum_len_of(ct)));
    let b = request_bytes(ndx, Some(data), ct);
    assert(b.take(4) =~= enc_int(ndx));
    assert(b.subrange(4, 20) =~= sum_head_bytes(h));
    assert(b.skip(20) =~= sum_bufs_bytes(sums_of(data, h, ct, 0, false)));
    let c = request_bytes(ndx, None, ct);
    assert(c.take(4) =~= enc_int(ndx));
    assert(c.skip(4) =~= sum_head_bytes(no_head(sum_len_of(ct))));
}

/// What is sent for a file of the list comes in as that file, with its layout
/// and its tokens; the word that ends the files ends them; and a file that is
/// not in the list is refused, by its index.
pub proof fn arrivals_are_read_back(
    l: FileList,
    ndx: i32,
    h: SumHead,
    ts: Seq<TokenModel>,
    rest: Seq<u8>,
)
    requires
        ndx != -1,
        forall|i: int| 0 <= i < ts.len() ==> sendable_token(#[trigger] ts[i]),
    ensures
        0 <= ndx - l.ndx_start < l.files@.len() ==> parse_arrival(
            l,
            enc_int(ndx) + sum_head_bytes(h) + enc_tokens(ts) + enc_int(0) + rest,
        ) == Ok::<(Incoming, Seq<u8>), ReceiveError>((Some((ndx, h, ts)), rest)),
        !(0 <= ndx - l.ndx_start < l.files@.len()) ==> parse_arrival(l, enc_int(ndx) + rest) == Err::<
            (Incoming, Seq<u8>),
            ReceiveError,
        >(ReceiveError::BadIndex(ndx)),
        parse_arrival(l, enc_int(NDX_DONE) + rest) == Ok::<(Incoming, Seq<u8>), ReceiveError>(
            (None, rest),
        ),
{
    let tokens = enc_tokens(ts) + enc_int(0) + rest;
    let buf = enc_int(ndx) + sum_head_bytes(h) + enc_tokens(ts) + enc_int(0) + rest;
    assert(buf =~= enc_int(ndx) + (sum_head_bytes(h) + tokens));
    lemma_parse_int(ndx, sum_head_bytes(h) + tokens);
    sum_head_round_trip(h, tokens);
    token_stream_round_trip(ts, Seq::empty(), rest);
    assert(Seq::<TokenModel>::empty() + ts =~= ts);
    lemma_parse_int(ndx, rest);
    lemma_parse_int(NDX_DONE, rest);
}

/// A run starts with all its counters at zero.
pub proof fn counters_start_at_zero()
    ensures
        ({
            let s = no_stats();
            &&& s.total_size == 0 && s.total_written == 0 && s.total_read == 0 && s.literal_data == 0
                && s.matched_data == 0 && s.total_transferred_size == 0
            &&& s.num_files == 0 && s.xferred_files == 0 && s.created_files == 0 && s.deleted_files
                == 0
        }),
{
}

// ---------------------------------------------------------------------------
// Frames
// ---------------------------------------------------------------------------

/// A read gives the next bytes of data in order, as many as are asked for and
/// the frame holds, and leaves the others for the next read.
pub proof fn reads_give_the_next_bytes(payload: Seq<u8>, tail: Seq<u8>, max: nat, seen: Seq<Message>)
    requires
        0 < payload.len() <= 0xff_ffff,
    ensures
        ({
            let n = if max < payload.len() {
                max
            } else {
                payload.len()
            };
            read_some(frame(MsgCode::Data, payload) + tail, 0, max, seen) matches Ok(r) && r.data
                == payload.take(n as int) && r.pending == payload.len() - n && r.rest == payload.skip(
                n as int,
            ) + tail && r.seen == seen
        }),
        ({
            let n = if max < payload.len() {
                max
            } else {
                payload.len()
            };
            read_some(payload + tail, payload.len(), max, seen) matches Ok(r) && r.data
                == payload.take(n as int) && r.pending == payload.len() - n && r.rest == payload.skip(
                n as int,
            ) + tail && r.seen == seen
        }),
{
    let n = if max < payload.len() {
        max
    } else {
        payload.len()
    };
    let f = frame(MsgCode::Data, payload);
    let buf = f + tail;
    frames_say_length_and_kind(MsgCode::Data, payload);
    assert(buf[0] == f[0] && buf[1] == f[1] && buf[2] == f[2] && buf[3] == f[3]);
    assert(dec_header(buf, false) == Ok::<(Option<MsgCode>, nat), crate::io::bytes::WireError>(
        (Some(MsgCode::Data), payload.len()),
    ));
    assert(buf.skip(4) =~= payload + tail) by {
        assert(f.skip(4) == payload);
        assert forall|i: int| 0 <= i < payload.len() implies buf.skip(4)[i] == payload[i] by {
            assert(f.skip(4)[i] == f[i + 4]);
        }
    }
    assert((payload + tail).take(n as int) =~= payload.take(n as int));
    assert((payload + tail).skip(n as int) =~= payload.skip(n as int) + tail);
}

// ---------------------------------------------------------------------------
// Letters that a server does not know
// ---------------------------------------------------------------------------

/// Letters that are options leave nothing over.
pub proof fn known_letters_leave_nothing_over(letters: Seq<char>)
    requires
        forall|i: int| 0 <= i < letters.len() ==> is_option(#[trigger] letters[i]),
    ensures
        unknown_letters(letters) == Seq::<char>::empty(),
    decreases letters.len(),
{
    if letters.len() > 0 {
        let t = letters.drop_last();
        assert(is_option(letters[letters.len() - 1]));
        assert forall|i: int| 0 <= i < t.len() implies is_option(#[trigger] t[i]) by {
            assert(is_option(letters[i]));
        }
        known_letters_leave_nothing_over(t);
    }
}

/// What stands behind the first `e` of a word is kept apart.
pub proof fn tail_stands_behind_the_first_e(letters: Seq<char>, tail: Seq<char>)
    requires
        !letters.contains('e'),
    ensures
        word_tail(seq!['-'] + letters + seq!['e'] + tail) == tail,
        word_tail(seq!['-'] + letters) == Seq::<char>::empty(),
{
    let a = seq!['-'] + letters;
    assert(a.skip(1) =~= letters);
    lemma_index_from(letters, 'e', 0);
    match first_index(letters, 'e') {
        Some(i) => {
            assert(letters.contains(letters[i]));
        },
        None => {},
    }
    let b = seq!['-'] + letters + seq!['e'] + tail;
    let rest = b.skip(1);
    assert(rest =~= letters + seq!['e'] + tail);
    lemma_index_from(rest, 'e', 0);
    assert(rest[letters.len() as int] == 'e');
    match first_index(rest, 'e') {
        Some(i) => {
            if i < letters.len() {
                assert(letters.contains(letters[i]));
            }
            assert(rest.skip(i + 1) =~= tail);
        },
        None => {},
    }
}

// ---------------------------------------------------------------------------
// The script of a batch file
// ---------------------------------------------------------------------------

proof fn lemma_holds(a: Seq<char>, part: Seq<char>, b: Seq<char>)
    ensures
        holds_part(a + part + b, part),
{
    let s = a + part + b;
    let k = a.len() as int;
    assert(s.subrange(k, k + part.len()) =~= part);
}

/// The script of a batch file is run by the shell, and its command ends with
/// the batch file, quoted, and the destination.
pub proof fn script_replays_its_batch(batch: Seq<char>, o: Options)
    ensures
        ({
            let s = script_text(batch, o);
            let end = " --read-batch="@ + quoted(batch) + " \"${1:-DEST}\"\n"@;
            &&& s.len() >= 10 + end.len()
            &&& s.take(10) == "#!/bin/sh\n"@
            &&& s.skip(s.len() - end.len()) == end
        }),
{
    reveal_strlit("#!/bin/sh\n");
    reveal_strlit("#!/bin/sh\n# rsync-rs batch script \u{2014} replay with: sh ");
    let s = script_text(batch, o);
    let end = " --read-batch="@ + quoted(batch) + " \"${1:-DEST}\"\n"@;
    let front = repeated(" -v"@, o.verbose as nat) + piece_if(o.checksum, " --checksum"@)
        + piece_if(o.compress, " --compress"@) + piece_if(o.delete, " --delete"@)
        + script_excludes(texts(o.exclude@));
    assert(script_tail(batch, o) =~= front + end);
    let head = script_head(batch) + script_attributes(o);
    assert(s =~= (head + front) + end);
    assert(s.skip(s.len() - end.len()) =~= end);
    assert(s.take(10) =~= "#!/bin/sh\n"@);
}

/// The command of the script has the options that the batch was written with.
pub proof fn script_keeps_the_options(batch: Seq<char>, o: Options)
    ensures
        o.checksum ==> holds_part(script_text(batch, o), " --checksum"@),
        o.compress ==> holds_part(script_text(batch, o), " --compress"@),
        o.delete ==> holds_part(script_text(batch, o), " --delete"@),
        o.archive ==> holds_part(script_text(batch, o), " -a"@),
{
    let s = script_text(batch, o);
    let head = script_head(batch);
    let attributes = script_attributes(o);
    let tail = script_tail(batch, o);
    let v = repeated(" -v"@, o.verbose as nat);
    let c = piece_if(o.checksum, " --checksum"@);
    let z = piece_if(o.compress, " --compress"@);
    let d = piece_if(o.delete, " --delete"@);
    let x = script_excludes(texts(o.exclude@));
    lemma_tail_holds(v, c, z, d, x, " --read-batch="@, quoted(batch), " \"${1:-DEST}\"\n"@);
    lemma_wider(tail, head + attributes, c);
    lemma_wider(tail, head + attributes, z);
    lemma_wider(tail, head + attributes, d);
    lemma_itself(attributes);
    lemma_wider(attributes, head, attributes);
    lemma_wider(head + attributes, tail, attributes);
    lemma_within(s, c);
    lemma_within(s, z);
    lemma_within(s, d);
    lemma_within(s, attributes);
}

proof fn lemma_tail_holds(
    v: Seq<char>,
    c: Seq<char>,
    z: Seq<char>,
    d: Seq<char>,
    x: Seq<char>,
    q: Seq<char>,
    w: Seq<char>,
    e: Seq<char>,
)
    ensures
        ({
            let t = v + c + z + d + x + q + w + e;
            within(t, c) && within(t, z) && within(t, d)
        }),
{
    lemma_itself(c);
    lemma_itself(z);
    lemma_itself(d);
    let a1 = v + c;
    lemma_wider(c, v, c);
    let a2 = a1 + z;
    lemma_wider(a1, z, c);
    lemma_wider(z, a1, z);
    let a3 = a2 + d;
    lemma_wider(a2, d, c);
    lemma_wider(a2, d, z);
    lemma_wider(d, a2, d);
    let a4 = a3 + x;
    lemma_wider(a3, x, c);
    lemma_wider(a3, x, z);
    lemma_wider(a3, x, d);
    let a5 = a4 + q;
    lemma_wider(a4, q, c);
    lemma_wider(a4, q, z);
    lemma_wider(a4, q, d);
    let a6 = a5 + w;
    lemma_wider(a5, w, c);
    lemma_wider(a5, w, z);
    lemma_wider(a5, w, d);
    lemma_wider(a6, e, c);
    lemma_wider(a6, e, z);
    lemma_wider(a6, e, d);
}

/// Each excluded pattern is passed by the script, quoted.
pub proof fn script_keeps_the_patterns(patterns: Seq<Seq<char>>, k: int)
    requires
        0 <= k < patterns.len(),
    ensures
        holds_part(script_excludes(patterns), " --exclude="@ + quoted(patterns[k])),
    decreases patterns.len(),
{
    let t = patterns.drop_last();
    let before = script_excludes(t);
    let last = " --exclude="@ + quoted(patterns.last());
    let none = Seq::<char>::empty();
    let s = script_excludes(patterns);
    assert(s =~= before + last);
    if k == patterns.len() - 1 {
        assert(before + last + none =~= s);
        lemma_holds(before, last, none);
    } else {
        assert(t[k] == patterns[k]);
        script_keeps_the_patterns(t, k);
        let part = " --exclude="@ + quoted(patterns[k]);
        let i = choose|i: int|
            0 <= i <= before.len() - part.len() && #[trigger] before.subrange(i, i + part.len())
                == part;
        assert(s.subrange(i, i + part.len()) =~= before.subrange(i, i + part.len()));
    }
}

} // verus!
