//! The token stream of a file, compressed.
//!
//! Literal bytes go through one raw deflate stream, which is flushed before
//! every reference to a block and cut into frames of at most 16383 bytes.  The
//! four bytes that end every flush are not sent.  References to blocks that
//! follow each other are sent as one run.  Both ends also feed the bytes of
//! every matched block to their stream, so that later literals can refer to
//! them.

use vstd::prelude::*;

use crate::delta::token::{Token, TokenModel};
use crate::io::bytes::{put_bytes, ByteReader, WireError};
use crate::io::parse::{lemma_parse_byte, lemma_parse_int, parse_byte, parse_bytes, parse_int, Parsed};
use crate::io::varint::{enc_int, read_byte, read_int, write_int};

verus! {

/// Ends the stream.
pub const END_FLAG: u8 = 0x00;
/// A block by its index.
pub const TOKEN_LONG: u8 = 0x20;
/// A run of blocks by the index of the first.
pub const TOKENRUN_LONG: u8 = 0x21;
/// A frame of compressed bytes.
pub const DEFLATED_DATA: u8 = 0x40;
/// A block by its distance from the last one.
pub const TOKEN_REL: u8 = 0x80;
/// A run of blocks by the distance of the first from the last one.
pub const TOKENRUN_REL: u8 = 0xc0;
/// The longest frame of compressed bytes.
pub const MAX_DATA_COUNT: usize = 16383;
/// How many compressed bytes are taken from the stream at a time.
pub const DEFLATE_ROOM: usize = 4096;
/// How many decompressed bytes are taken from the stream at a time.
pub const INFLATE_ROOM: usize = 65536;

// ---------------------------------------------------------------------------
// The compression streams
// ---------------------------------------------------------------------------

/// The compressing stream of the `flate2` crate.
#[verifier::external_type_specification]
#[verifier::external_body]
pub struct ExCompress(flate2::Compress);

/// The decompressing stream of the `flate2` crate.
#[verifier::external_type_specification]
#[verifier::external_body]
pub struct ExDecompress(flate2::Decompress);

/// One call of a stream: the input offered, the room for output, and whether
/// the stream was asked to flush.
pub type StreamCall = (Seq<u8>, nat, bool);

/// What a call of a stream gave: how much input it took, and its output.
pub type StreamStep = (nat, Seq<u8>);

/// The calls that a compressing stream holds the traces of, oldest first.
pub uninterp spec fn deflate_calls(c: flate2::Compress) -> Seq<(Seq<u8>, nat, bool)>;

/// What the last of some calls of a raw compressing stream of the default
/// level gave; nothing where it failed.
pub uninterp spec fn deflate_step(calls: Seq<(Seq<u8>, nat, bool)>) -> Option<(nat, Seq<u8>)>;

/// The calls that a decompressing stream holds the traces of, oldest first.
pub uninterp spec fn inflate_calls(d: flate2::Decompress) -> Seq<(Seq<u8>, nat, bool)>;

/// What the last of some calls of a raw decompressing stream gave; nothing
/// where it failed.
pub uninterp spec fn inflate_step(calls: Seq<(Seq<u8>, nat, bool)>) -> Option<(nat, Seq<u8>)>;

/// Calls `flate2::Compress::new` for a raw stream of the default level.  The
/// stream has no calls behind it.
#[verifier::external_body]
fn new_deflate() -> (c: flate2::Compress)
    ensures
        deflate_calls(c) == Seq::<(Seq<u8>, nat, bool)>::empty(),
{
    flate2::Compress::new(flate2::Compression::default(), false)
}

/// The totals of a stream around a call: the bytes that it has taken and made.
struct Totals {
    in_before: u64,
    in_after: u64,
    out_before: u64,
    out_after: u64,
}

/// Calls `flate2::Compress::compress` on the buffer `out`, and `total_in` and
/// `total_out` before and behind it.  The call takes no more than it is offered,
/// makes no more than the buffer has room for, leaves what it made at the front
/// of the buffer, and the totals grow by what it took and made, which follows
/// from the calls so far.  How it compresses, and what it leaves in the rest
/// of the buffer, is left unsaid.
#[verifier::external_body]
fn deflate_into(c: &mut flate2::Compress, input: &[u8], out: &mut Vec<u8>, flush: bool) -> (res: Option<
    Totals,
>)
    ensures
        deflate_calls(*final(c)) == deflate_calls(*old(c)).push((input@, old(out)@.len(), flush)),
        final(out)@.len() == old(out)@.len(),
        match res {
            Some(t) => t.in_before <= t.in_after <= t.in_before + input@.len() && t.out_before
                <= t.out_after <= t.out_before + old(out)@.len() && deflate_step(
                deflate_calls(*final(c)),
            ) == Some(
                (
                    (t.in_after - t.in_before) as nat,
                    final(out)@.take(t.out_after - t.out_before),
                ),
            ),
            None => deflate_step(deflate_calls(*final(c))) == None::<(nat, Seq<u8>)>,
        },
{
    let mode = if flush { flate2::FlushCompress::Sync } else { flate2::FlushCompress::None };
    let (in_before, out_before) = (c.total_in(), c.total_out());
    c.compress(input, out.as_mut_slice(), mode).ok()?;
    let (in_after, out_after) = (c.total_in(), c.total_out());
    Some(Totals { in_before, in_after, out_before, out_after })
}

fn deflate(c: &mut flate2::Compress, input: &[u8], room: usize, flush: bool) -> (res: Option<
    (usize, Vec<u8>),
>)
    requires
        room <= isize::MAX,
    ensures
        deflate_calls(*final(c)) == deflate_calls(*old(c)).push((input@, room as nat, flush)),
        match res {
            Some((n, out)) => deflate_step(deflate_calls(*final(c))) == Some((n as nat, out@)) && n
                <= input@.len() && out@.len() <= room,
            None => deflate_step(deflate_calls(*final(c))) == None::<(nat, Seq<u8>)>,
        },
{
    let mut out: Vec<u8> = vec![0u8; room];
    match deflate_into(c, input, &mut out, flush) {
        None => None,
        Some(t) => {
            assert(input.len() <= usize::MAX);
            let n: usize = (t.in_after - t.in_before) as usize;
            let made: usize = (t.out_after - t.out_before) as usize;
            out.truncate(made);
            Some((n, out))
        },
    }
}

/// Calls `flate2::Decompress::new` for a raw stream.  The stream has no calls
/// behind it.
#[verifier::external_body]
fn new_inflate() -> (d: flate2::Decompress)
    ensures
        inflate_calls(d) == Seq::<(Seq<u8>, nat, bool)>::empty(),
{
    flate2::Decompress::new(false)
}

/// Calls `flate2::Decompress::decompress` on the buffer `out`, and `total_in` and
/// `total_out` before and behind it.  The call takes no more than it is offered,
/// makes no more than the buffer has room for, leaves what it made at the front
/// of the buffer, and the totals grow by what it took and made, which follows
/// from the calls so far.  How it decompresses, and what it leaves in the rest
/// of the buffer, is left unsaid.
#[verifier::external_body]
fn inflate_into(d: &mut flate2::Decompress, input: &[u8], out: &mut Vec<u8>, flush: bool) -> (res: Option<
    Totals,
>)
    ensures
        inflate_calls(*final(d)) == inflate_calls(*old(d)).push((input@, old(out)@.len(), flush)),
        final(out)@.len() == old(out)@.len(),
        match res {
            Some(t) => t.in_before <= t.in_after <= t.in_before + input@.len() && t.out_before
                <= t.out_after <= t.out_before + old(out)@.len() && inflate_step(
                inflate_calls(*final(d)),
            ) == Some(
                (
                    (t.in_after - t.in_before) as nat,
                    final(out)@.take(t.out_after - t.out_before),
                ),
            ),
            None => inflate_step(inflate_calls(*final(d))) == None::<(nat, Seq<u8>)>,
        },
{
    let mode = if flush { flate2::FlushDecompress::Sync } else { flate2::FlushDecompress::None };
    let (in_before, out_before) = (d.total_in(), d.total_out());
    d.decompress(input, out.as_mut_slice(), mode).ok()?;
    let (in_after, out_after) = (d.total_in(), d.total_out());
    Some(Totals { in_before, in_after, out_before, out_after })
}

fn inflate(d: &mut flate2::Decompress, input: &[u8], room: usize, flush: bool) -> (res: Option<
    (usize, Vec<u8>),
>)
    requires
        room <= isize::MAX,
    ensures
        inflate_calls(*final(d)) == inflate_calls(*old(d)).push((input@, room as nat, flush)),
        match res {
            Some((n, out)) => inflate_step(inflate_calls(*final(d))) == Some((n as nat, out@)) && n
                <= input@.len() && out@.len() <= room,
            None => inflate_step(inflate_calls(*final(d))) == None::<(nat, Seq<u8>)>,
        },
{
    let mut out: Vec<u8> = vec![0u8; room];
    match inflate_into(d, input, &mut out, flush) {
        None => None,
        Some(t) => {
            assert(input.len() <= usize::MAX);
            let n: usize = (t.in_after - t.in_before) as usize;
            let made: usize = (t.out_after - t.out_before) as usize;
            out.truncate(made);
            Some((n, out))
        },
    }
}

// ---------------------------------------------------------------------------
// What is written
// ---------------------------------------------------------------------------

/// Offers `input` to the stream until it has taken all of it, and gathers the
/// output behind `out`.
pub open spec fn feed_all(calls: Seq<StreamCall>, input: Seq<u8>, out: Seq<u8>) -> Result<
    (Seq<StreamCall>, Seq<u8>),
    WireError,
>
    decreases input.len(), usize::MAX - out.len(),
{
    if input.len() == 0 {
        Ok((calls, out))
    } else {
        let next = calls.push((input, DEFLATE_ROOM as nat, false));
        match deflate_step(next) {
            None => Err(WireError::DeflateFailed),
            Some((n, made)) => if n > input.len() || (n == 0 && (made.len() == 0 || out.len()
                + made.len() > usize::MAX)) {
                Err(WireError::DeflateStalled)
            } else {
                feed_all(next, input.skip(n as int), out + made)
            },
        }
    }
}

/// Feeds `input` to the stream and flushes it.
pub open spec fn feed_and_flush(calls: Seq<StreamCall>, input: Seq<u8>) -> Result<
    (Seq<StreamCall>, Seq<u8>),
    WireError,
> {
    match feed_all(calls, input, Seq::empty()) {
        Err(e) => Err(e),
        Ok((fed, out)) => {
            let room = out.len() + input.len() + 256;
            let next = fed.push((Seq::empty(), room, true));
            if room > isize::MAX {
                Err(WireError::DeflateFailed)
            } else {
                match deflate_step(next) {
                    None => Err(WireError::DeflateFailed),
                    Some((_, made)) => Ok((next, out + made)),
                }
            }
        },
    }
}

/// The four bytes that end a flush.
pub open spec fn sync_trailer() -> Seq<u8> {
    seq![0x00u8, 0x00u8, 0xffu8, 0xffu8]
}

/// Compresses the literal bytes `pending` and cuts the end of the flush off.
pub open spec fn compress_pending(calls: Seq<StreamCall>, pending: Seq<u8>) -> Result<
    (Seq<StreamCall>, Seq<u8>),
    WireError,
> {
    match feed_and_flush(calls, pending) {
        Err(e) => Err(e),
        Ok((next, out)) => if out.len() >= 4 && out.skip(out.len() - 4) == sync_trailer() {
            Ok((next, out.take(out.len() - 4)))
        } else {
            Err(WireError::DeflateTrailer)
        },
    }
}

/// One frame of compressed bytes.
pub open spec fn data_frame(b: Seq<u8>) -> Seq<u8> {
    seq![(DEFLATED_DATA + b.len() / 256) as u8, (b.len() % 256) as u8] + b
}

/// Compressed bytes in frames, all but the last of full length.
pub open spec fn deflated_frames(b: Seq<u8>) -> Seq<u8>
    decreases b.len(),
{
    if b.len() == 0 {
        Seq::empty()
    } else if b.len() <= MAX_DATA_COUNT {
        data_frame(b)
    } else {
        data_frame(b.take(MAX_DATA_COUNT as int)) + deflated_frames(b.skip(MAX_DATA_COUNT as int))
    }
}

/// A run of blocks from `start` to `last`, behind a run that ended at `prev`.
pub open spec fn run_bytes(start: int, last: int, prev: int) -> Seq<u8> {
    let r = start - prev;
    let n = last - start;
    (if 0 <= r <= 63 {
        seq![((if n == 0 {
            TOKEN_REL
        } else {
            TOKENRUN_REL
        }) + r) as u8]
    } else {
        seq![if n == 0 {
            TOKEN_LONG
        } else {
            TOKENRUN_LONG
        }] + enc_int(start as i32)
    }) + (if n == 0 {
        Seq::empty()
    } else {
        seq![(n % 256) as u8, (n / 256) as u8]
    })
}

/// The run of blocks that a writer has begun.
pub struct RunModel {
    pub open: bool,
    pub start: i32,
    pub last: i32,
    pub prev: i32,
}

impl RunModel {
    /// What ending the run writes.
    pub open spec fn closing(self) -> Seq<u8> {
        if self.open {
            run_bytes(self.start as int, self.last as int, self.prev as int)
        } else {
            Seq::empty()
        }
    }

    /// The state after the run has ended.
    pub open spec fn closed(self) -> RunModel {
        if self.open {
            RunModel { open: false, prev: self.last, ..self }
        } else {
            self
        }
    }

    /// Whether a block continues the run.
    pub open spec fn continues(self, token: i32) -> bool {
        self.open && token == self.last + 1 && token < self.start + 65536
    }

    /// The state after a block.
    pub open spec fn after(self, token: i32) -> RunModel {
        if self.continues(token) {
            RunModel { last: token, ..self }
        } else {
            RunModel { open: true, start: token, last: token, prev: self.closed().prev }
        }
    }

    /// What a block writes.
    pub open spec fn writes(self, token: i32) -> Seq<u8> {
        if self.continues(token) {
            Seq::empty()
        } else {
            self.closing()
        }
    }

    /// Whether the run is one that a writer can have begun.
    pub open spec fn wf(self) -> bool {
        self.open ==> {
            &&& self.start <= self.last < self.start + 65536
            &&& i32::MIN <= self.start - self.prev <= i32::MAX
        }
    }

    /// Whether a block is not too far from the one before it.
    pub open spec fn reaches(self, token: i32) -> bool {
        i32::MIN <= token - self.closed().prev <= i32::MAX
    }

    /// Whether the run is one of blocks that are counted from 0.
    pub open spec fn counts_from_zero(self) -> bool {
        &&& self.wf()
        &&& 0 <= self.prev
        &&& self.open ==> 0 <= self.start
    }
}

/// The state of a writer.
pub struct TxModel {
    pub run: RunModel,
    pub calls: Seq<StreamCall>,
    pub pending: Seq<u8>,
    pub output: Seq<u8>,
}

impl TxModel {
    /// The state after the pending literal bytes have been sent.
    pub open spec fn flushed(self) -> Result<TxModel, WireError> {
        if self.pending.len() == 0 {
            Ok(self)
        } else {
            match compress_pending(self.calls, self.pending) {
                Err(e) => Err(e),
                Ok((next, out)) => Ok(
                    TxModel {
                        run: self.run.closed(),
                        calls: next,
                        pending: Seq::empty(),
                        output: self.output + self.run.closing() + deflated_frames(out),
                    },
                ),
            }
        }
    }

    /// The state after a reference to block `token` with the bytes `block`.
    pub open spec fn matched(self, token: i32, block: Seq<u8>) -> Result<TxModel, WireError> {
        match self.flushed() {
            Err(e) => Err(e),
            Ok(m) => match feed_and_flush(m.calls, block) {
                Err(e) => Err(e),
                Ok((next, _)) => Ok(
                    TxModel {
                        run: m.run.after(token),
                        calls: next,
                        pending: m.pending,
                        output: m.output + m.run.writes(token),
                    },
                ),
            },
        }
    }

    /// The whole stream after its end.
    pub open spec fn finished(self) -> Result<Seq<u8>, WireError> {
        match (TxModel {
            run: self.run.closed(),
            output: self.output + self.run.closing(),
            ..self
        }).flushed() {
            Err(e) => Err(e),
            Ok(m) => Ok(m.output.push(END_FLAG)),
        }
    }
}

/// A compressed token stream being written.
#[derive(Debug)]
pub struct DeflatedTokenWriter {
    inner: Vec<u8>,
    deflate: flate2::Compress,
    pending_in: Vec<u8>,
    last_token: i32,
    run_start: i32,
    last_run_end: i32,
    run_open: bool,
}

/// Feeds `input` to the stream and flushes it.
fn feed_stream(c: &mut flate2::Compress, input: &[u8]) -> (res: Result<Vec<u8>, WireError>)
    ensures
        match res {
            Ok(out) => feed_and_flush(deflate_calls(*old(c)), input@) == Ok::<
                (Seq<StreamCall>, Seq<u8>),
                WireError,
            >((deflate_calls(*final(c)), out@)),
            Err(e) => feed_and_flush(deflate_calls(*old(c)), input@) == Err::<
                (Seq<StreamCall>, Seq<u8>),
                WireError,
            >(e),
        },
{
    let mut out: Vec<u8> = Vec::new();
    let mut rest: &[u8] = input;
    let ghost want = feed_all(deflate_calls(*c), input@, Seq::empty());
    while rest.len() > 0
        invariant
            feed_all(deflate_calls(*c), rest@, out@) == want,
            want == feed_all(deflate_calls(*old(c)), input@, Seq::empty()),
        decreases rest@.len(), usize::MAX - out@.len(),
    {
        let ghost before = out@;
        match deflate(c, rest, DEFLATE_ROOM, false) {
            None => return Err(WireError::DeflateFailed),
            Some((n, made)) => {
                if n == 0 && made.len() == 0 {
                    return Err(WireError::DeflateStalled);
                }
                let ghost had = rest@;
                put_bytes(&mut out, made.as_slice());
                assert(out.len() <= usize::MAX);
                assert(out@.len() == before.len() + made@.len());
                rest = rest.split_at(n).1;
                assert(rest@ =~= had.skip(n as int));
            },
        }
    }
    let room: u128 = out.len() as u128 + input.len() as u128 + 256;
    if room > isize::MAX as u128 {
        return Err(WireError::DeflateFailed);
    }
    let none: Vec<u8> = Vec::new();
    assert(none@ =~= Seq::<u8>::empty());
    match deflate(c, none.as_slice(), room as usize, true) {
        None => Err(WireError::DeflateFailed),
        Some((_, made)) => {
            put_bytes(&mut out, made.as_slice());
            Ok(out)
        },
    }
}

/// Writes compressed bytes in frames.
fn put_deflated(w: &mut Vec<u8>, b: &[u8])
    ensures
        final(w)@ == old(w)@ + deflated_frames(b@),
{
    let ghost start = w@;
    let mut rest: &[u8] = b;
    assert(w@ + deflated_frames(rest@) =~= start + deflated_frames(b@));
    while rest.len() > 0
        invariant
            w@ + deflated_frames(rest@) == start + deflated_frames(b@),
        decreases rest@.len(),
    {
        let ghost before = w@;
        let ghost left = rest@;
        let n: usize = if rest.len() < MAX_DATA_COUNT {
            rest.len()
        } else {
            MAX_DATA_COUNT
        };
        let parts: (&[u8], &[u8]) = rest.split_at(n);
        w.push(DEFLATED_DATA + (n / 256) as u8);
        w.push((n % 256) as u8);
        put_bytes(w, parts.0);
        assert(w@ =~= before + data_frame(parts.0@));
        rest = parts.1;
        proof {
            if left.len() <= MAX_DATA_COUNT {
                assert(parts.0@ =~= left);
                assert(rest@ =~= Seq::<u8>::empty());
            } else {
                assert(parts.0@ =~= left.take(MAX_DATA_COUNT as int));
                assert(rest@ =~= left.skip(MAX_DATA_COUNT as int));
            }
            assert(w@ + deflated_frames(rest@) =~= before + deflated_frames(left));
        }
    }
    assert(w@ =~= w@ + deflated_frames(rest@));
}

fn put_run(w: &mut Vec<u8>, start: i32, last: i32, prev: i32)
    requires
        start <= last < start + 65536,
        i32::MIN <= start - prev <= i32::MAX,
    ensures
        final(w)@ == old(w)@ + run_bytes(start as int, last as int, prev as int),
{
    let r: i32 = start - prev;
    let n: i32 = last - start;
    if 0 <= r && r <= 63 {
        if n == 0 {
            w.push(TOKEN_REL + r as u8);
        } else {
            w.push(TOKENRUN_REL + r as u8);
        }
    } else {
        if n == 0 {
            w.push(TOKEN_LONG);
        } else {
            w.push(TOKENRUN_LONG);
        }
        write_int(w, start);
    }
    if n != 0 {
        w.push((n % 256) as u8);
        w.push((n / 256) as u8);
    }
    assert(w@ =~= old(w)@ + run_bytes(start as int, last as int, prev as int));
}

impl DeflatedTokenWriter {
    /// The state of the writer.
    pub closed spec fn model(&self) -> TxModel {
        TxModel {
            run: RunModel {
                open: self.run_open,
                start: self.run_start,
                last: self.last_token,
                prev: self.last_run_end,
            },
            calls: deflate_calls(self.deflate),
            pending: self.pending_in@,
            output: self.inner@,
        }
    }

    /// A stream behind the bytes `inner`.
    pub fn new(inner: Vec<u8>) -> (w: DeflatedTokenWriter)
        ensures
            w.model() == (TxModel {
                run: RunModel { open: false, start: 0, last: 0, prev: 0 },
                calls: Seq::empty(),
                pending: Seq::empty(),
                output: inner@,
            }),
            w.model().run.counts_from_zero(),
    {
        DeflatedTokenWriter {
            inner,
            deflate: new_deflate(),
            pending_in: Vec::new(),
            last_token: 0,
            run_start: 0,
            last_run_end: 0,
            run_open: false,
        }
    }

    /// Keeps literal bytes to be sent before the next reference or the end.
    pub fn send_literal(&mut self, data: &[u8])
        ensures
            final(self).model() == (TxModel {
                pending: old(self).model().pending + data@,
                ..old(self).model()
            }),
    {
        put_bytes(&mut self.pending_in, data);
    }

    /// Refers to block `block_idx` of the older version, whose bytes are
    /// `block_bytes`.
    pub fn send_block_match(&mut self, block_idx: i32, block_bytes: &[u8]) -> (res: Result<
        (),
        WireError,
    >)
        requires
            old(self).model().run.reaches(block_idx),
            old(self).model().run.wf(),
        ensures
            match res {
                Ok(_) => old(self).model().matched(block_idx, block_bytes@) == Ok::<
                    TxModel,
                    WireError,
                >(final(self).model()) && final(self).model().run.wf(),
                Err(e) => old(self).model().matched(block_idx, block_bytes@) == Err::<
                    TxModel,
                    WireError,
                >(e),
            },
    {
        match self.flush_pending_literal() {
            Err(e) => return Err(e),
            Ok(_) => {},
        }
        self.emit_token(block_idx);
        match feed_stream(&mut self.deflate, block_bytes) {
            Err(e) => Err(e),
            Ok(_) => Ok(()),
        }
    }

    /// Sends what is left, the end of the stream, and hands out the stream.
    pub fn finish(self) -> (res: Result<Vec<u8>, WireError>)
        requires
            self.model().run.wf(),
        ensures
            match res {
                Ok(out) => self.model().finished() == Ok::<Seq<u8>, WireError>(out@),
                Err(e) => self.model().finished() == Err::<Seq<u8>, WireError>(e),
            },
    {
        let mut w: DeflatedTokenWriter = self;
        w.close_run();
        match w.flush_pending_literal() {
            Err(e) => return Err(e),
            Ok(_) => {},
        }
        let mut out: Vec<u8> = w.inner;
        out.push(END_FLAG);
        Ok(out)
    }

    fn close_run(&mut self)
        requires
            old(self).model().run.wf(),
        ensures
            final(self).model() == (TxModel {
                run: old(self).model().run.closed(),
                output: old(self).model().output + old(self).model().run.closing(),
                ..old(self).model()
            }),
            final(self).model().run.wf(),
    {
        if self.run_open {
            put_run(&mut self.inner, self.run_start, self.last_token, self.last_run_end);
            self.last_run_end = self.last_token;
            self.run_open = false;
        } else {
            assert(self.inner@ + Seq::<u8>::empty() =~= self.inner@);
        }
    }

    fn emit_token(&mut self, token: i32)
        requires
            old(self).model().run.reaches(token),
            old(self).model().run.wf(),
        ensures
            final(self).model() == (TxModel {
                run: old(self).model().run.after(token),
                output: old(self).model().output + old(self).model().run.writes(token),
                ..old(self).model()
            }),
            final(self).model().run.wf(),
    {
        if self.run_open && token as i64 == self.last_token as i64 + 1 && (token as i64)
            < self.run_start as i64 + 65536 {
            self.last_token = token;
            assert(self.inner@ + Seq::<u8>::empty() =~= self.inner@);
            return;
        }
        self.close_run();
        self.run_start = token;
        self.last_token = token;
        self.run_open = true;
    }

    fn flush_pending_literal(&mut self) -> (res: Result<(), WireError>)
        requires
            old(self).model().run.wf(),
        ensures
            match res {
                Ok(_) => old(self).model().flushed() == Ok::<TxModel, WireError>(
                    final(self).model(),
                ) && final(self).model().run.wf(),
                Err(e) => old(self).model().flushed() == Err::<TxModel, WireError>(e),
            },
    {
        if self.pending_in.len() == 0 {
            return Ok(());
        }
        self.close_run();
        let mut out: Vec<u8> = match feed_stream(&mut self.deflate, self.pending_in.as_slice()) {
            Err(e) => return Err(e),
            Ok(out) => out,
        };
        let n: usize = out.len();
        if !(n >= 4 && out[n - 4] == 0x00 && out[n - 3] == 0x00 && out[n - 2] == 0xff && out[n - 1]
            == 0xff) {
            proof {
                if n >= 4 {
                    let t = out@.skip(n - 4);
                    assert(t[0] == out@[n - 4] && t[1] == out@[n - 3] && t[2] == out@[n - 2]
                        && t[3] == out@[n - 1]);
                }
            }
            return Err(WireError::DeflateTrailer);
        }
        assert(out@.skip(n - 4) =~= sync_trailer());
        out.truncate(n - 4);
        put_deflated(&mut self.inner, out.as_slice());
        self.pending_in.clear();
        Ok(())
    }
}

// ---------------------------------------------------------------------------
// What is read
// ---------------------------------------------------------------------------

/// What a reader of a compressed token stream is doing.
#[derive(Debug, Clone, Copy, PartialEq, Eq, Structural)]
pub enum RxState {
    /// Nothing of the file has been read.
    Init,
    /// The next byte is a flag.
    Idle,
    /// A frame is being decompressed.
    Inflating,
    /// The next byte is a flag, behind a frame.
    Inflated,
    /// A run of blocks is being handed out.
    Running,
}

/// The state of a reader.
#[verifier::ext_equal]
pub struct RxModel {
    pub state: RxState,
    pub token: i32,
    pub run: i32,
    pub saved: Option<u8>,
    pub cbuf: Seq<u8>,
    pub calls: Seq<StreamCall>,
    pub input: Seq<u8>,
}

/// What one step of a reader does.
pub enum RxStep {
    /// Hands out a token, or nothing at the end of the file.
    Give(Option<TokenModel>, RxModel),
    /// Goes on.
    Go(RxModel),
    /// Stops in the given state.
    Fail(WireError, RxModel),
}

/// The flag byte that is due, and the input behind it.
pub open spec fn next_flag(m: RxModel) -> Parsed<u8> {
    match m.saved {
        Some(f) => Ok((f, m.input)),
        None => parse_byte(m.input),
    }
}

/// Takes in a frame of compressed bytes whose flag has been read.
pub open spec fn step_frame(m: RxModel, flag: u8, rest: Seq<u8>) -> RxStep {
    match parse_byte(rest) {
        Err(e) => RxStep::Fail(e, m),
        Ok((low, r1)) => match parse_bytes(r1, flag as int % 64 * 256 + low) {
            Err(e) => RxStep::Fail(e, m),
            Ok((b, r2)) => RxStep::Go(
                RxModel { state: RxState::Inflating, saved: None, cbuf: b, input: r2, ..m },
            ),
        },
    }
}

/// Ends a flush: hands out what is left in the stream, or feeds it the bytes
/// that end a flush.
pub open spec fn step_flush(m: RxModel, flag: u8, rest: Seq<u8>) -> RxStep {
    let c1 = m.calls.push((Seq::empty(), INFLATE_ROOM as nat, true));
    match inflate_step(c1) {
        None => RxStep::Fail(WireError::InflateFailed, RxModel { calls: c1, ..m }),
        Some((_, made)) => if made.len() > 0 {
            RxStep::Give(
                Some(TokenModel::Literal(made)),
                RxModel { saved: Some(flag), calls: c1, input: rest, ..m },
            )
        } else {
            let c2 = c1.push((sync_trailer(), INFLATE_ROOM as nat, true));
            match inflate_step(c2) {
                None => RxStep::Fail(WireError::InflateFailed, RxModel { calls: c2, ..m }),
                Some((n, _)) => if n != 4 {
                    RxStep::Fail(WireError::InflateStalled, RxModel { calls: c2, ..m })
                } else {
                    RxStep::Go(
                        RxModel {
                            state: RxState::Idle,
                            saved: Some(flag),
                            calls: c2,
                            input: rest,
                            ..m
                        },
                    )
                },
            }
        },
    }
}

/// Decodes a reference to a block, or the end of the file.
pub open spec fn step_token(m: RxModel, flag: u8, rest: Seq<u8>) -> RxStep {
    if flag == END_FLAG {
        RxStep::Give(None, RxModel { state: RxState::Init, saved: None, input: rest, ..m })
    } else {
        let token: Parsed<int> = if flag >= 128 {
            Ok((m.token + flag as int % 64, rest))
        } else {
            match parse_int(rest) {
                Err(e) => Err(e),
                Ok((t, r)) => Ok((t as int, r)),
            }
        };
        match token {
            Err(e) => RxStep::Fail(e, m),
            Ok((t, r1)) => if t < 0 || t > i32::MAX {
                RxStep::Fail(WireError::BadToken, m)
            } else if flag >= 192 || (flag < 128 && flag % 2 == 1) {
                match parse_bytes(r1, 2) {
                    Err(e) => RxStep::Fail(e, m),
                    Ok((b, r2)) => RxStep::Give(
                        Some(TokenModel::BlockMatch(t as i32)),
                        RxModel {
                            state: RxState::Running,
                            token: t as i32,
                            run: (b[0] + b[1] * 256) as i32,
                            saved: None,
                            input: r2,
                            ..m
                        },
                    ),
                }
            } else {
                RxStep::Give(
                    Some(TokenModel::BlockMatch(t as i32)),
                    RxModel {
                        state: RxState::Idle,
                        token: t as i32,
                        saved: None,
                        input: r1,
                        ..m
                    },
                )
            },
        }
    }
}

/// Decompresses a part of the frame.
pub open spec fn step_inflate(m: RxModel) -> RxStep {
    let c1 = m.calls.push((m.cbuf, INFLATE_ROOM as nat, false));
    match inflate_step(c1) {
        None => RxStep::Fail(WireError::InflateFailed, RxModel { calls: c1, ..m }),
        Some((n, made)) => {
            let left = if n <= m.cbuf.len() {
                m.cbuf.skip(n as int)
            } else {
                Seq::empty()
            };
            let next = RxModel {
                state: if left.len() == 0 {
                    RxState::Inflated
                } else {
                    RxState::Inflating
                },
                cbuf: left,
                calls: c1,
                ..m
            };
            if made.len() > 0 {
                RxStep::Give(Some(TokenModel::Literal(made)), next)
            } else if n == 0 && m.cbuf.len() > 0 {
                RxStep::Fail(WireError::InflateStalled, next)
            } else {
                RxStep::Go(next)
            }
        },
    }
}

/// Hands out the next block of a run.
pub open spec fn step_run(m: RxModel) -> RxStep {
    let left = if m.run == i32::MIN {
        i32::MAX
    } else {
        (m.run - 1) as i32
    };
    if m.token == i32::MAX {
        RxStep::Fail(WireError::BadToken, m)
    } else {
        RxStep::Give(
            Some(TokenModel::BlockMatch((m.token + 1) as i32)),
            RxModel {
                token: (m.token + 1) as i32,
                run: left,
                state: if left == 0 {
                    RxState::Idle
                } else {
                    RxState::Running
                },
                ..m
            },
        )
    }
}

/// One step of a reader.
pub open spec fn rx_step(m: RxModel) -> RxStep {
    match m.state {
        RxState::Init => RxStep::Go(RxModel { state: RxState::Idle, token: 0, ..m }),
        RxState::Inflating => step_inflate(m),
        RxState::Running => step_run(m),
        _ => match next_flag(m) {
            Err(e) => RxStep::Fail(e, m),
            Ok((flag, rest)) => if flag / 64 == 1 {
                step_frame(m, flag, rest)
            } else if m.state == RxState::Inflated {
                step_flush(m, flag, rest)
            } else {
                step_token(m, flag, rest)
            },
        },
    }
}

/// How far a state is from handing something out.
pub open spec fn rx_rank(s: RxState) -> nat {
    match s {
        RxState::Init => 4,
        RxState::Inflating => 3,
        RxState::Inflated => 2,
        RxState::Idle => 1,
        RxState::Running => 0,
    }
}

/// Whether going on from `m` to `n` comes nearer to the end.
pub open spec fn rx_nearer(m: RxModel, n: RxModel) -> bool {
    ||| n.input.len() < m.input.len()
    ||| n.input.len() == m.input.len() && n.cbuf.len() < m.cbuf.len()
    ||| n.input.len() == m.input.len() && n.cbuf.len() == m.cbuf.len() && rx_rank(n.state)
        < rx_rank(m.state)
}

/// What reading one token gives, and the state behind it.
pub open spec fn rx_read(m: RxModel) -> (Result<Option<TokenModel>, WireError>, RxModel)
    decreases m.input.len(), m.cbuf.len(), rx_rank(m.state),
{
    match rx_step(m) {
        RxStep::Give(t, n) => (Ok(t), n),
        RxStep::Fail(e, n) => (Err(e), n),
        RxStep::Go(n) => if rx_nearer(m, n) {
            rx_read(n)
        } else {
            (Err(WireError::InflateStalled), n)
        },
    }
}

/// Feeds a stream the bytes of a block that it could not see, as a block that
/// was stored without compression.
pub open spec fn see_stored(calls: Seq<StreamCall>, bytes: Seq<u8>) -> Result<
    Seq<StreamCall>,
    WireError,
>
    decreases bytes.len(),
{
    if bytes.len() == 0 {
        Ok(calls)
    } else {
        let n = if bytes.len() < 0xffff {
            bytes.len()
        } else {
            0xffff
        };
        let next = calls.push((stored_header(n), INFLATE_ROOM as nat, true));
        match inflate_step(next) {
            None => Err(WireError::InflateFailed),
            Some((k, _)) => if k != 5 {
                Err(WireError::InflateStalled)
            } else {
                match see_chunk(next, bytes.take(n as int)) {
                    Err(e) => Err(e),
                    Ok(c) => see_stored(c, bytes.skip(n as int)),
                }
            },
        }
    }
}

/// The header of a stored block of `n` bytes.
pub open spec fn stored_header(n: nat) -> Seq<u8> {
    seq![
        0u8,
        (n % 256) as u8,
        (n / 256) as u8,
        (255 - n % 256) as u8,
        (255 - n / 256) as u8,
    ]
}

/// Offers the bytes of a stored block to the stream until it has taken them.
pub open spec fn see_chunk(calls: Seq<StreamCall>, chunk: Seq<u8>) -> Result<
    Seq<StreamCall>,
    WireError,
>
    decreases chunk.len(),
{
    if chunk.len() == 0 {
        Ok(calls)
    } else {
        let next = calls.push((chunk, INFLATE_ROOM as nat, true));
        match inflate_step(next) {
            None => Err(WireError::InflateFailed),
            Some((n, _)) => if n == 0 || n > chunk.len() {
                Err(WireError::InflateStalled)
            } else {
                see_chunk(next, chunk.skip(n as int))
            },
        }
    }
}

/// A compressed token stream being read.
#[derive(Debug)]
pub struct DeflatedTokenReader {
    inner: ByteReader,
    inflate: flate2::Decompress,
    state: RxState,
    rx_token: i32,
    rx_run: i32,
    saved_flag: Option<u8>,
    cbuf: Vec<u8>,
}

/// What one executed step hands out.
enum Stepped {
    Give(Option<Token>),
    Go,
    Fail(WireError),
}

spec fn stepped_is(s: Stepped, step: RxStep, m: RxModel) -> bool {
    match s {
        Stepped::Give(None) => step == RxStep::Give(None, m),
        Stepped::Give(Some(t)) => step == RxStep::Give(Some(t@), m),
        Stepped::Go => step == RxStep::Go(m),
        Stepped::Fail(e) => step == RxStep::Fail(e, m),
    }
}

impl DeflatedTokenReader {
    /// The state of the reader.
    pub closed spec fn model(&self) -> RxModel {
        RxModel {
            state: self.state,
            token: self.rx_token,
            run: self.rx_run,
            saved: self.saved_flag,
            cbuf: self.cbuf@,
            calls: inflate_calls(self.inflate),
            input: self.inner@,
        }
    }

    /// A stream over the bytes `inner`.
    pub fn new(inner: ByteReader) -> (r: DeflatedTokenReader)
        ensures
            r.model() == (RxModel {
                state: RxState::Init,
                token: 0,
                run: 0,
                saved: None,
                cbuf: Seq::empty(),
                calls: Seq::empty(),
                input: inner@,
            }),
    {
        DeflatedTokenReader {
            inner,
            inflate: new_inflate(),
            state: RxState::Init,
            rx_token: 0,
            rx_run: 0,
            saved_flag: None,
            cbuf: Vec::new(),
        }
    }

    /// Adds bytes that came in from the connection.
    pub fn feed(&mut self, more: &[u8])
        ensures
            final(self).model() == (RxModel {
                input: old(self).model().input + more@,
                ..old(self).model()
            }),
    {
        self.inner.extend(more);
    }

    /// Hands the rest of the input back.
    pub fn into_inner(self) -> (r: ByteReader)
        ensures
            r@ == self.model().input,
    {
        self.inner
    }

    fn frame(&mut self, flag: u8) -> (s: Stepped)
        requires
            flag / 64 == 1,
        ensures
            stepped_is(
                s,
                step_frame(old(self).model(), flag, old(self).model().input),
                final(self).model(),
            ),
            forall|q: nat| #[trigger] final(self).inner.at(q) == old(self).inner.at(q),
    {
        proof {
            reveal(parse_byte);
            reveal(parse_bytes);
        }
        let start: usize = self.inner.position();
        let low: u8 = match read_byte(&mut self.inner) {
            Err(e) => return Stepped::Fail(e),
            Ok(b) => b,
        };
        let n: usize = (flag % 64) as usize * 256 + low as usize;
        match self.inner.take_bytes(n) {
            Err(e) => {
                self.inner.seek(start);
                Stepped::Fail(e)
            },
            Ok(b) => {
                self.cbuf = b;
                self.saved_flag = None;
                self.state = RxState::Inflating;
                Stepped::Go
            },
        }
    }

    fn end_flush(&mut self, flag: u8) -> (s: Stepped)
        ensures
            stepped_is(
                s,
                step_flush(old(self).model(), flag, old(self).model().input),
                final(self).model(),
            ),
            forall|q: nat| #[trigger] final(self).inner.at(q) == old(self).inner.at(q),
    {
        let none: Vec<u8> = Vec::new();
        assert(none@ =~= Seq::<u8>::empty());
        match inflate(&mut self.inflate, none.as_slice(), INFLATE_ROOM, true) {
            None => return Stepped::Fail(WireError::InflateFailed),
            Some((_, made)) => {
                if made.len() > 0 {
                    self.saved_flag = Some(flag);
                    return Stepped::Give(Some(Token::Literal(made)));
                }
            },
        }
        let mut trailer: Vec<u8> = Vec::new();
        trailer.push(0x00);
        trailer.push(0x00);
        trailer.push(0xff);
        trailer.push(0xff);
        assert(trailer@ =~= sync_trailer());
        match inflate(&mut self.inflate, trailer.as_slice(), INFLATE_ROOM, true) {
            None => Stepped::Fail(WireError::InflateFailed),
            Some((n, _)) => {
                if n != 4 {
                    return Stepped::Fail(WireError::InflateStalled);
                }
                self.state = RxState::Idle;
                self.saved_flag = Some(flag);
                Stepped::Go
            },
        }
    }

    fn token(&mut self, flag: u8) -> (s: Stepped)
        requires
            old(self).model().state == RxState::Idle,
        ensures
            stepped_is(
                s,
                step_token(old(self).model(), flag, old(self).model().input),
                final(self).model(),
            ),
            forall|q: nat| #[trigger] final(self).inner.at(q) == old(self).inner.at(q),
    {
        proof {
            reveal(parse_int);
            reveal(parse_bytes);
        }
        if flag == END_FLAG {
            self.state = RxState::Init;
            self.saved_flag = None;
            return Stepped::Give(None);
        }
        let start: usize = self.inner.position();
        let token: i64 = if flag >= 128 {
            self.rx_token as i64 + (flag % 64) as i64
        } else {
            match read_int(&mut self.inner) {
                Err(e) => return Stepped::Fail(e),
                Ok(v) => v as i64,
            }
        };
        if token < 0 || token > 0x7fff_ffff {
            self.inner.seek(start);
            return Stepped::Fail(WireError::BadToken);
        }
        if flag >= 192 || (flag < 128 && flag % 2 == 1) {
            match self.inner.take_bytes(2) {
                Err(e) => {
                    self.inner.seek(start);
                    return Stepped::Fail(e);
                },
                Ok(b) => {
                    self.rx_run = b[0] as i32 + b[1] as i32 * 256;
                    self.state = RxState::Running;
                },
            }
        }
        self.rx_token = token as i32;
        self.saved_flag = None;
        Stepped::Give(Some(Token::BlockMatch(token as i32)))
    }

    fn inflate_part(&mut self) -> (s: Stepped)
        requires
            old(self).model().state == RxState::Inflating,
        ensures
            stepped_is(s, step_inflate(old(self).model()), final(self).model()),
    {
        let ghost had = self.cbuf@;
        match inflate(&mut self.inflate, self.cbuf.as_slice(), INFLATE_ROOM, false) {
            None => Stepped::Fail(WireError::InflateFailed),
            Some((n, made)) => {
                let stuck: bool = n == 0 && self.cbuf.len() > 0;
                let left: Vec<u8> = self.cbuf.split_off(n);
                assert(left@ =~= had.skip(n as int));
                self.cbuf = left;
                if self.cbuf.len() == 0 {
                    self.state = RxState::Inflated;
                }
                if made.len() > 0 {
                    Stepped::Give(Some(Token::Literal(made)))
                } else if stuck {
                    Stepped::Fail(WireError::InflateStalled)
                } else {
                    Stepped::Go
                }
            },
        }
    }

    fn step(&mut self) -> (s: Stepped)
        ensures
            stepped_is(s, rx_step(old(self).model()), final(self).model()),
            s is Go ==> rx_nearer(old(self).model(), final(self).model()),
    {
        match self.state {
            RxState::Init => {
                self.state = RxState::Idle;
                self.rx_token = 0;
                Stepped::Go
            },
            RxState::Inflating => self.inflate_part(),
            RxState::Running => {
                if self.rx_token == i32::MAX {
                    return Stepped::Fail(WireError::BadToken);
                }
                self.rx_token = self.rx_token + 1;
                self.rx_run = self.rx_run.wrapping_sub(1);
                if self.rx_run == 0 {
                    self.state = RxState::Idle;
                }
                Stepped::Give(Some(Token::BlockMatch(self.rx_token)))
            },
            RxState::Idle | RxState::Inflated => {
                proof {
                    reveal(parse_byte);
                    reveal(parse_bytes);
                }
                let start: usize = self.inner.position();
                let saved: Option<u8> = self.saved_flag;
                let flag: u8 = match saved {
                    Some(f) => f,
                    None => match read_byte(&mut self.inner) {
                        Err(e) => return Stepped::Fail(e),
                        Ok(b) => b,
                    },
                };
                let ghost m = old(self).model();
                let ghost rest = self.inner@;
                let ghost at_flag = self.model();
                assert(next_flag(m) == Ok::<(u8, Seq<u8>), WireError>((flag, rest)));
                assert(at_flag == (RxModel { input: rest, ..m }));
                if flag / 64 == 1 {
                    match self.frame(flag) {
                        Stepped::Fail(e) => {
                            self.inner.seek(start);
                            Stepped::Fail(e)
                        },
                        s => s,
                    }
                } else if matches!(self.state, RxState::Inflated) {
                    match self.end_flush(flag) {
                        Stepped::Fail(e) => {
                            self.inner.seek(start);
                            Stepped::Fail(e)
                        },
                        s => s,
                    }
                } else {
                    match self.token(flag) {
                        Stepped::Fail(e) => {
                            self.inner.seek(start);
                            Stepped::Fail(e)
                        },
                        s => s,
                    }
                }
            },
        }
    }

    /// Reads the next token; none at the end of the file.
    pub fn read_token(&mut self) -> (res: Result<Option<Token>, WireError>)
        ensures
            ({
                let (want, next) = rx_read(old(self).model());
                &&& next == final(self).model()
                &&& match res {
                    Ok(None) => want == Ok::<Option<TokenModel>, WireError>(None),
                    Ok(Some(t)) => want == Ok::<Option<TokenModel>, WireError>(Some(t@)),
                    Err(e) => want == Err::<Option<TokenModel>, WireError>(e),
                }
            }),
    {
        loop
            invariant
                rx_read(self.model()) == rx_read(old(self).model()),
            decreases
                self.model().input.len(),
                self.model().cbuf.len(),
                rx_rank(self.model().state),
        {
            match self.step() {
                Stepped::Give(t) => return Ok(t),
                Stepped::Fail(e) => return Err(e),
                Stepped::Go => {},
            }
        }
    }

    /// Shows the stream the bytes of the block that was referred to last.
    pub fn see_block(&mut self, bytes: &[u8]) -> (res: Result<(), WireError>)
        ensures
            match res {
                Ok(_) => see_stored(old(self).model().calls, bytes@) == Ok::<
                    Seq<StreamCall>,
                    WireError,
                >(final(self).model().calls) && final(self).model() == (RxModel {
                    calls: final(self).model().calls,
                    ..old(self).model()
                }),
                Err(e) => see_stored(old(self).model().calls, bytes@) == Err::<
                    Seq<StreamCall>,
                    WireError,
                >(e),
            },
    {
        let mut rest: &[u8] = bytes;
        while rest.len() > 0
            invariant
                see_stored(self.model().calls, rest@) == see_stored(
                    old(self).model().calls,
                    bytes@,
                ),
                self.model() == (RxModel { calls: self.model().calls, ..old(self).model() }),
            decreases rest@.len(),
        {
            let n: usize = if rest.len() < 0xffff {
                rest.len()
            } else {
                0xffff
            };
            let mut header: Vec<u8> = Vec::new();
            header.push(0);
            header.push((n % 256) as u8);
            header.push((n / 256) as u8);
            header.push(255 - (n % 256) as u8);
            header.push(255 - (n / 256) as u8);
            assert(header@ =~= stored_header(n as nat));
            match inflate(&mut self.inflate, header.as_slice(), INFLATE_ROOM, true) {
                None => return Err(WireError::InflateFailed),
                Some((k, _)) => {
                    if k != 5 {
                        return Err(WireError::InflateStalled);
                    }
                },
            }
            let parts: (&[u8], &[u8]) = rest.split_at(n);
            assert(parts.0@ =~= rest@.take(n as int));
            assert(parts.1@ =~= rest@.skip(n as int));
            match see_bytes(&mut self.inflate, parts.0) {
                Err(e) => return Err(e),
                Ok(_) => {},
            }
            rest = parts.1;
        }
        Ok(())
    }
}

fn see_bytes(d: &mut flate2::Decompress, chunk: &[u8]) -> (res: Result<(), WireError>)
    ensures
        match res {
            Ok(_) => see_chunk(inflate_calls(*old(d)), chunk@) == Ok::<Seq<StreamCall>, WireError>(
                inflate_calls(*final(d)),
            ),
            Err(e) => see_chunk(inflate_calls(*old(d)), chunk@) == Err::<
                Seq<StreamCall>,
                WireError,
            >(e),
        },
{
    let mut rest: &[u8] = chunk;
    while rest.len() > 0
        invariant
            see_chunk(inflate_calls(*d), rest@) == see_chunk(inflate_calls(*old(d)), chunk@),
        decreases rest@.len(),
    {
        match inflate(d, rest, INFLATE_ROOM, true) {
            None => return Err(WireError::InflateFailed),
            Some((n, _)) => {
                if n == 0 {
                    return Err(WireError::InflateStalled);
                }
                let ghost had = rest@;
                rest = rest.split_at(n).1;
                assert(rest@ =~= had.skip(n as int));
            },
        }
    }
    Ok(())
}

// ---------------------------------------------------------------------------
// Laws
// ---------------------------------------------------------------------------

/// The tokens of `k` reads, and the state behind them; fewer tokens where a
/// read gives none.
pub open spec fn rx_tokens(m: RxModel, k: nat) -> (Seq<TokenModel>, RxModel)
    decreases k,
{
    if k == 0 {
        (Seq::empty(), m)
    } else {
        match rx_read(m) {
            (Ok(Some(t)), n) => {
                let (more, end) = rx_tokens(n, (k - 1) as nat);
                (seq![t] + more, end)
            },
            _ => (Seq::empty(), m),
        }
    }
}

/// The references to the blocks from `start` to `last`.
pub open spec fn block_tokens(start: int, last: int) -> Seq<TokenModel> {
    Seq::new((last - start + 1) as nat, |i: int| TokenModel::BlockMatch((start + i) as i32))
}

proof fn lemma_running(m: RxModel, n: nat)
    requires
        m.state == RxState::Running,
        0 < n == m.run,
        0 <= m.token,
        m.token + n <= i32::MAX,
    ensures
        rx_tokens(m, n) == (
            block_tokens(m.token + 1, m.token + n),
            RxModel { state: RxState::Idle, token: (m.token + n) as i32, run: 0, ..m },
        ),
    decreases n,
{
    let t = TokenModel::BlockMatch((m.token + 1) as i32);
    let next = RxModel {
        state: if n == 1 {
            RxState::Idle
        } else {
            RxState::Running
        },
        token: (m.token + 1) as i32,
        run: (n - 1) as i32,
        ..m
    };
    assert(rx_read(m) == (Ok::<Option<TokenModel>, WireError>(Some(t)), next));
    if n == 1 {
        reveal_with_fuel(rx_tokens, 2);
        assert(seq![t] + Seq::<TokenModel>::empty() =~= block_tokens(m.token + 1, m.token + 1));
    } else {
        lemma_running(next, (n - 1) as nat);
        assert(seq![t] + block_tokens(m.token + 2, m.token + n) =~= block_tokens(
            m.token + 1,
            m.token + n,
        ));
    }
}

/// A run of blocks that was written is read back block by block, and the
/// reader then stands behind it.
pub proof fn run_round_trip(m: RxModel, start: i32, last: i32, rest: Seq<u8>)
    requires
        m.state == RxState::Idle,
        m.saved is None,
        0 <= m.token,
        0 <= start <= last < start + 65536,
        m.input == run_bytes(start as int, last as int, m.token as int) + rest,
    ensures
        rx_tokens(m, (last - start + 1) as nat) == (
            block_tokens(start as int, last as int),
            RxModel {
                token: last,
                run: if start == last {
                    m.run
                } else {
                    0
                },
                input: rest,
                ..m
            },
        ),
{
    let r = start - m.token;
    let n = last - start;
    let count: Seq<u8> = if n == 0 {
        Seq::empty()
    } else {
        seq![(n % 256) as u8, (n / 256) as u8]
    };
    let flag: u8 = if 0 <= r <= 63 {
        ((if n == 0 {
            TOKEN_REL
        } else {
            TOKENRUN_REL
        }) + r) as u8
    } else if n == 0 {
        TOKEN_LONG
    } else {
        TOKENRUN_LONG
    };
    let head: Seq<u8> = if 0 <= r <= 63 {
        Seq::empty()
    } else {
        enc_int(start)
    };
    assert(m.input =~= seq![flag] + (head + (count + rest)));
    lemma_parse_byte(flag, head + (count + rest));
    if 0 <= r <= 63 {
        assert(head + (count + rest) =~= count + rest);
    } else {
        lemma_parse_int(start, count + rest);
    }
    let t = TokenModel::BlockMatch(start);
    if n == 0 {
        assert(count + rest =~= rest);
        let next = RxModel { token: start, input: rest, ..m };
        assert(rx_step(m) == RxStep::Give(Some(t), next));
        assert(rx_read(m) == (Ok::<Option<TokenModel>, WireError>(Some(t)), next));
        reveal_with_fuel(rx_tokens, 2);
        assert(seq![t] + Seq::<TokenModel>::empty() =~= block_tokens(start as int, last as int));
    } else {
        crate::io::parse::lemma_parse_bytes(count, rest);
        assert(count[0] + count[1] * 256 == n);
        let next = RxModel {
            state: RxState::Running,
            token: start,
            run: n as i32,
            input: rest,
            ..m
        };
        assert(rx_step(m) == RxStep::Give(Some(t), next));
        assert(rx_read(m) == (Ok::<Option<TokenModel>, WireError>(Some(t)), next));
        lemma_running(next, n as nat);
        assert(seq![t] + block_tokens(start + 1, last as int) =~= block_tokens(
            start as int,
            last as int,
        ));
    }
}

/// A frame of compressed bytes that was written reaches the decompressing
/// stream whole.
pub proof fn frame_round_trip(m: RxModel, b: Seq<u8>, rest: Seq<u8>)
    requires
        m.state == RxState::Idle || m.state == RxState::Inflated,
        m.saved is None,
        b.len() <= MAX_DATA_COUNT,
        m.input == data_frame(b) + rest,
    ensures
        rx_step(m) == RxStep::Go(
            RxModel { state: RxState::Inflating, cbuf: b, input: rest, ..m },
        ),
{
    let flag = (DEFLATED_DATA + b.len() / 256) as u8;
    let low = (b.len() % 256) as u8;
    assert(m.input =~= seq![flag] + (seq![low] + (b + rest)));
    lemma_parse_byte(flag, seq![low] + (b + rest));
    lemma_parse_byte(low, b + rest);
    crate::io::parse::lemma_parse_bytes(b, rest);
    assert(flag as int % 64 * 256 + low == b.len());
}

/// An empty file is the end mark alone, and reads as no token.
pub proof fn empty_stream(m: RxModel, rest: Seq<u8>)
    requires
        m.state == RxState::Init,
        m.saved is None,
        m.input == seq![END_FLAG] + rest,
    ensures
        (TxModel {
            run: RunModel { open: false, start: 0, last: 0, prev: 0 },
            calls: Seq::empty(),
            pending: Seq::empty(),
            output: Seq::empty(),
        }).finished() == Ok::<Seq<u8>, WireError>(seq![END_FLAG]),
        rx_read(m) == (
            Ok::<Option<TokenModel>, WireError>(None),
            RxModel { token: 0, input: rest, ..m },
        ),
{
    let w = TxModel {
        run: RunModel { open: false, start: 0, last: 0, prev: 0 },
        calls: Seq::empty(),
        pending: Seq::empty(),
        output: Seq::empty(),
    };
    assert(w.output + w.run.closing() =~= w.output);
    assert(Seq::<u8>::empty().push(END_FLAG) =~= seq![END_FLAG]);
    lemma_parse_byte(END_FLAG, rest);
    let idle = RxModel { state: RxState::Idle, token: 0, ..m };
    assert(rx_step(m) == RxStep::Go(idle));
    assert(rx_read(idle) == (
        Ok::<Option<TokenModel>, WireError>(None),
        RxModel { state: RxState::Init, input: rest, ..idle },
    ));
}

} // verus!
