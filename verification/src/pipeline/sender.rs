//! The sending side of a transfer.
//!
//! The sender takes requests for files.  It repeats the head of each request,
//! reads the checksums of what the receiving side has, and answers with what
//! is to be copied from there and what is new.

use vstd::prelude::*;

use crate::checksum::strong::{strong_sum, ChecksumType, StrongChecksum};
use crate::delta::deflate_token::{DeflatedTokenWriter, RunModel, TxModel};
use crate::delta::match_blocks::{
    delta_of, find_matches_seeded, parse_sum_bufs, parse_sum_head, read_sum_bufs, read_sum_head,
    sum_head_bytes, write_sum_head, BlockHashTable, DeltaOp,
};
use crate::delta::token::{
    chunk_rest, chunk_tokens, enc_tokens, lemma_enc_tokens_concat, literal_token, TokenModel,
    TokenWriter,
};
use crate::flags::{flag_set, has_bit};
use crate::io::bytes::{put_bytes, ByteReader, WireError};
use crate::io::parse::{parse_bytes, parse_int};
use crate::io::varint::{enc_int, write_int, NdxPrev, NdxState};
use crate::pipeline::items::{
    before_cut_name, can_write_index, can_write_item, find_cut_name, index_after, index_bytes,
    item_bytes, parse_index, parse_item, read_index, read_item, write_index, write_item, Item,
};
use crate::protocol::constants::{CHUNK_SIZE, ITEM_TRANSFER, NDX_DONE};
use crate::protocol::types::{
    block_sums, copy_bytes, no_stats, BlockSum, FileEntry, FileList, FileType, Stats, SumBuf,
    SumHead,
};

verus! {

/// How many phases a transfer has behind the first one.
pub open spec fn max_phase(protocol: u32) -> u32 {
    if protocol >= 29 {
        2
    } else {
        1
    }
}

/// How far the sender is.
#[derive(Clone, Copy, Debug, PartialEq, Eq, Structural)]
pub enum SenderStage {
    /// A request comes next.
    Request,
    /// The checksums for the file of this index come next.
    Sums(i32),
    /// The data of the file of this index is to be sent.
    Data(i32),
    /// All is said.
    Done,
}

/// A file that is to be sent.
#[derive(Debug)]
pub struct FileJob {
    pub ndx: i32,
    pub path: String,
    /// The layout of what the receiving side has.
    pub head: SumHead,
    /// The checksums of its blocks.
    pub sums: Vec<SumBuf>,
}

/// The model of a file that is to be sent.
#[verifier::ext_equal]
pub struct JobModel {
    pub ndx: i32,
    pub path: Seq<char>,
    pub head: SumHead,
    pub sums: Seq<BlockSum>,
}

impl View for FileJob {
    type V = JobModel;

    open spec fn view(&self) -> JobModel {
        JobModel {
            ndx: self.ndx,
            path: self.path@,
            head: self.head,
            sums: block_sums(self.sums@),
        }
    }
}

/// The state of a sender.
pub struct SenderModel {
    pub input: Seq<u8>,
    pub output: Seq<u8>,
    pub phase: u32,
    pub ndx: NdxState,
    pub stage: SenderStage,
}

/// What one step of a sender gives.
pub enum SenderNext {
    /// The input is cut off or malformed.
    Fail(WireError),
    /// The sender goes on.
    Go(SenderModel),
    /// A file is to be sent.
    File(SenderModel, JobModel),
    /// All is said.
    Finished(SenderModel),
}

/// The file of an index.
pub open spec fn file_at(l: FileList, ndx: i32) -> Option<FileEntry> {
    if 0 <= ndx - l.ndx_start < l.files@.len() {
        Some(l.files@[ndx - l.ndx_start]@)
    } else {
        None
    }
}

/// What is sent for a file that cannot be sent: nothing new, nothing copied,
/// and no checksum.
pub open spec fn skipped_bytes(h: SumHead) -> Seq<u8> {
    sum_head_bytes(h) + enc_int(0) + Seq::new(16, |i: int| 0u8)
}

/// A step at the end of a phase.
pub open spec fn phase_step(m: SenderModel, protocol: u32, prev: NdxPrev, rest: Seq<u8>) -> SenderNext {
    let n = SenderModel {
        input: rest,
        output: m.output + index_bytes(protocol, m.ndx.write, NDX_DONE),
        phase: (m.phase + 1) as u32,
        ndx: NdxState { read: prev, write: index_after(protocol, m.ndx.write, NDX_DONE) },
        stage: SenderStage::Request,
    };
    if m.phase + 1 > max_phase(protocol) {
        SenderNext::Finished(SenderModel { stage: SenderStage::Done, ..n })
    } else {
        SenderNext::Go(n)
    }
}

/// A step for a request.
pub open spec fn item_step(
    m: SenderModel,
    protocol: u32,
    ndx: i32,
    prev: NdxPrev,
    rest: Seq<u8>,
) -> SenderNext {
    match parse_item(protocol, rest) {
        Err(e) => SenderNext::Fail(e),
        Ok((item, rest)) => if !can_write_index(protocol, ndx) {
            SenderNext::Fail(WireError::IntegerOverflow)
        } else if !can_write_item(item) {
            SenderNext::Fail(WireError::StringTooLong)
        } else {
            SenderNext::Go(
                SenderModel {
                    input: rest,
                    output: m.output + index_bytes(protocol, m.ndx.write, ndx) + item_bytes(
                        protocol,
                        item,
                    ),
                    phase: m.phase,
                    ndx: NdxState { read: prev, write: index_after(protocol, m.ndx.write, ndx) },
                    stage: if flag_set(item.iflags, ITEM_TRANSFER) {
                        SenderStage::Sums(ndx)
                    } else {
                        SenderStage::Request
                    },
                },
            )
        },
    }
}

/// A step for the checksums behind a request.
pub open spec fn sums_step(m: SenderModel, l: FileList, ndx: i32) -> SenderNext {
    match parse_sum_head(m.input) {
        Err(e) => SenderNext::Fail(e),
        Ok((head, rest)) => match parse_sum_bufs(rest, head) {
            Err(e) => SenderNext::Fail(e),
            Ok((sums, rest)) => match file_at(l, ndx) {
                Some(f) if f.file_type() == FileType::Regular => SenderNext::File(
                    SenderModel { input: rest, stage: SenderStage::Data(ndx), ..m },
                    JobModel { ndx, path: f.path(), head, sums },
                ),
                _ => SenderNext::Go(
                    SenderModel {
                        input: rest,
                        output: m.output + skipped_bytes(head),
                        stage: SenderStage::Request,
                        ..m
                    },
                ),
            },
        },
    }
}

/// One step of a sender.
pub open spec fn sender_step(m: SenderModel, l: FileList, protocol: u32) -> SenderNext {
    match m.stage {
        SenderStage::Request => match parse_index(protocol, m.ndx.read, m.input) {
            Err(e) => SenderNext::Fail(e),
            Ok(((ndx, prev), rest)) => if ndx == NDX_DONE {
                phase_step(m, protocol, prev, rest)
            } else {
                item_step(m, protocol, ndx, prev, rest)
            },
        },
        SenderStage::Sums(ndx) => sums_step(m, l, ndx),
        _ => SenderNext::Finished(m),
    }
}

/// The steps of a sender up to where it needs a file, or more input, or is
/// done; and the state there.
pub open spec fn sender_run(m: SenderModel, l: FileList, protocol: u32) -> (SenderNext, SenderModel)
    decreases m.input.len(),
{
    match sender_step(m, l, protocol) {
        SenderNext::Go(n) => if n.input.len() < m.input.len() {
            sender_run(n, l, protocol)
        } else {
            (SenderNext::Go(n), n)
        },
        SenderNext::Fail(e) => (SenderNext::Fail(e), m),
        SenderNext::File(n, j) => (SenderNext::File(n, j), n),
        SenderNext::Finished(n) => (SenderNext::Finished(n), n),
    }
}

/// What a sender needs from its caller.
#[derive(Debug)]
pub enum SenderEvent {
    /// The data of a file.
    File(FileJob),
    /// Nothing more.
    Finished,
}

enum Stepped {
    Go,
    File(FileJob),
    Finished,
}

/// The sending side.
pub struct Sender {
    pub reader: ByteReader,
    pub writer: Vec<u8>,
    pub stats: Stats,
    pub use_zlib: bool,
    pub phase: u32,
    pub ndx: NdxState,
    pub stage: SenderStage,
}

impl Sender {
    /// The state of the sender.
    pub open spec fn model(&self) -> SenderModel {
        SenderModel {
            input: self.reader@,
            output: self.writer@,
            phase: self.phase,
            ndx: self.ndx,
            stage: self.stage,
        }
    }

    /// A sender that has read nothing yet.
    pub fn new(reader: ByteReader, writer: Vec<u8>) -> (s: Sender)
        ensures
            s.reader == reader,
            s.writer == writer,
            s.stats == no_stats(),
            !s.use_zlib,
            s.phase == 0,
            s.stage == SenderStage::Request,
            s.ndx == (NdxState {
                read: crate::io::varint::ndx_start(),
                write: crate::io::varint::ndx_start(),
            }),
    {
        Sender {
            reader,
            writer,
            stats: Stats::default(),
            use_zlib: false,
            phase: 0,
            ndx: NdxState::new(),
            stage: SenderStage::Request,
        }
    }

    /// The sender with compression on or off.
    pub fn with_compression(self, use_zlib: bool) -> (s: Sender)
        ensures
            s == (Sender { use_zlib, ..self }),
    {
        let mut s: Sender = self;
        s.use_zlib = use_zlib;
        s
    }

    /// Adds received bytes.
    pub fn feed(&mut self, more: &[u8])
        ensures
            final(self).model() == (SenderModel {
                input: old(self).model().input + more@,
                ..old(self).model()
            }),
            final(self).stats == old(self).stats,
            final(self).use_zlib == old(self).use_zlib,
    {
        self.reader.extend(more);
    }

    /// Hands out what is to be sent.
    pub fn take_output(&mut self) -> (out: Vec<u8>)
        ensures
            out@ == old(self).writer@,
            final(self).model() == (SenderModel { output: Seq::empty(), ..old(self).model() }),
            final(self).stats == old(self).stats,
            final(self).use_zlib == old(self).use_zlib,
    {
        let out: Vec<u8> = self.writer.split_off(0);
        assert(out@ =~= old(self).writer@);
        assert(self.writer@ =~= Seq::<u8>::empty());
        out
    }

    fn phase_end(&mut self, protocol: u32)
        requires
            old(self).phase < u32::MAX,
        ensures
            final(self).stats == old(self).stats,
            final(self).use_zlib == old(self).use_zlib,
            final(self).phase == old(self).phase + 1,
            final(self).reader == old(self).reader,
            final(self).writer@ == old(self).writer@ + index_bytes(
                protocol,
                old(self).ndx.write,
                NDX_DONE,
            ),
            final(self).ndx == (NdxState {
                write: index_after(protocol, old(self).ndx.write, NDX_DONE),
                ..old(self).ndx
            }),
            final(self).stage == if old(self).phase + 1 > max_phase(protocol) {
                SenderStage::Done
            } else {
                SenderStage::Request
            },
    {
        write_index(&mut self.writer, &mut self.ndx, protocol, NDX_DONE);
        self.phase = self.phase + 1;
        let last: u32 = if protocol >= 29 {
            2
        } else {
            1
        };
        self.stage = if self.phase > last {
            SenderStage::Done
        } else {
            SenderStage::Request
        };
    }

    fn request(&mut self, protocol: u32) -> (res: Result<Stepped, WireError>)
        requires
            old(self).stage == SenderStage::Request,
            old(self).phase < u32::MAX,
        ensures
            final(self).stats == old(self).stats,
            final(self).use_zlib == old(self).use_zlib,
            ({
                let m = old(self).model();
                let want = match parse_index(protocol, m.ndx.read, m.input) {
                    Err(e) => SenderNext::Fail(e),
                    Ok(((ndx, prev), rest)) => if ndx == NDX_DONE {
                        phase_step(m, protocol, prev, rest)
                    } else {
                        item_step(m, protocol, ndx, prev, rest)
                    },
                };
                match res {
                    Err(e) => want == SenderNext::Fail(e) && final(self).model() == m,
                    Ok(Stepped::Go) => want == SenderNext::Go(final(self).model())
                        && final(self).reader@.len() < old(self).reader@.len()
                        && final(self).phase <= if old(self).phase < 2 { 2 } else { old(self).phase },
                    Ok(Stepped::Finished) => want == SenderNext::Finished(final(self).model()),
                    Ok(Stepped::File(_)) => false,
                }
            }),
    {
        let start: usize = self.reader.position();
        let before: NdxState = self.ndx;
        let ndx: i32 = match read_index(&mut self.reader, &mut self.ndx, protocol) {
            Err(e) => return Err(e),
            Ok(x) => x,
        };
        if ndx == NDX_DONE {
            self.phase_end(protocol);
            match self.stage {
                SenderStage::Done => return Ok(Stepped::Finished),
                _ => return Ok(Stepped::Go),
            }
        }
        let item: Item = match read_item(&mut self.reader, protocol) {
            Err(e) => {
                self.reader.seek(start);
                self.ndx = before;
                return Err(e);
            },
            Ok(i) => i,
        };
        if protocol >= 30 && ndx == i32::MIN {
            self.reader.seek(start);
            self.ndx = before;
            return Err(WireError::IntegerOverflow);
        }
        let mut echo: Vec<u8> = Vec::new();
        match write_item(&mut echo, protocol, &item) {
            Err(e) => {
                self.reader.seek(start);
                self.ndx = before;
                return Err(e);
            },
            Ok(_) => {},
        }
        let ghost out = self.writer@;
        write_index(&mut self.writer, &mut self.ndx, protocol, ndx);
        put_bytes(&mut self.writer, echo.as_slice());
        assert(self.writer@ =~= out + index_bytes(protocol, before.write, ndx) + item_bytes(
            protocol,
            item@,
        ));
        if has_bit(item.iflags, ITEM_TRANSFER) {
            self.stage = SenderStage::Sums(ndx);
        }
        Ok(Stepped::Go)
    }

    fn checksums(&mut self, flist: &FileList, ndx: i32) -> (res: Result<Stepped, WireError>)
        requires
            old(self).stage == SenderStage::Sums(ndx),
        ensures
            final(self).stats == old(self).stats,
            final(self).use_zlib == old(self).use_zlib,
            ({
                let m = old(self).model();
                match res {
                    Err(e) => sums_step(m, *flist, ndx) == SenderNext::Fail(e)
                        && final(self).model() == m,
                    Ok(Stepped::Go) => sums_step(m, *flist, ndx) == SenderNext::Go(
                        final(self).model(),
                    ) && final(self).reader@.len() < old(self).reader@.len() && final(self).phase
                        == old(self).phase,
                    Ok(Stepped::File(job)) => sums_step(m, *flist, ndx) == SenderNext::File(
                        final(self).model(),
                        job@,
                    ),
                    Ok(Stepped::Finished) => false,
                }
            }),
    {
        let start: usize = self.reader.position();
        let head: SumHead = match read_sum_head(&mut self.reader) {
            Err(e) => return Err(e),
            Ok(h) => h,
        };
        let sums: Vec<SumBuf> = match read_sum_bufs(&mut self.reader, &head) {
            Err(e) => {
                self.reader.seek(start);
                return Err(e);
            },
            Ok(s) => s,
        };
        proof {
            lemma_head_shrinks(old(self).reader@);
            lemma_sums_shrink(parse_sum_head(old(self).reader@)->Ok_0.1, head);
        }
        match flist.get_by_ndx(ndx) {
            Some(fi) => {
                if fi.is_regular() {
                    self.stage = SenderStage::Data(ndx);
                    return Ok(Stepped::File(FileJob { ndx, path: fi.path(), head, sums }));
                }
            },
            None => {},
        }
        send_skipped_xfer(&mut self.writer, &head);
        self.stage = SenderStage::Request;
        Ok(Stepped::Go)
    }

    /// Takes the end of the input: a name in a request that is cut off there
    /// counts as an empty one.
    pub fn on_eof(&mut self, protocol: u32)
        ensures
            final(self).model() == (SenderModel {
                input: match (
                    old(self).stage,
                    before_cut_name(protocol, old(self).ndx.read, old(self).reader@),
                ) {
                    (SenderStage::Request, Some(front)) => front.push(0u8),
                    _ => old(self).reader@,
                },
                ..old(self).model()
            }),
            final(self).stats == old(self).stats,
            final(self).use_zlib == old(self).use_zlib,
    {
        match self.stage {
            SenderStage::Request => match find_cut_name(&mut self.reader, &self.ndx, protocol) {
                Some(n) => {
                    let all: Vec<u8> = self.reader.rest();
                    let mut front: Vec<u8> = copy_bytes(all.as_slice().split_at(n).0);
                    assert(front@ =~= old(self).reader@.take(n as int));
                    front.push(0);
                    self.reader = ByteReader::new(front);
                },
                None => {},
            },
            _ => {},
        }
    }

    /// Answers requests until the data of a file is needed, or all is said.
    /// Where the input is cut off, what could be answered is answered, and the
    /// sender goes on from there once it is fed.
    pub fn run(&mut self, flist: &FileList, protocol: u32) -> (res: Result<SenderEvent, WireError>)
        requires
            old(self).phase < u32::MAX,
            !(old(self).stage is Data),
        ensures
            final(self).stats == old(self).stats,
            final(self).use_zlib == old(self).use_zlib,
            ({
                let (last, state) = sender_run(old(self).model(), *flist, protocol);
                &&& final(self).model() == state
                &&& match res {
                    Err(e) => last == SenderNext::Fail(e),
                    Ok(SenderEvent::File(job)) => last == SenderNext::File(state, job@),
                    Ok(SenderEvent::Finished) => last == SenderNext::Finished(state),
                }
            }),
    {
        loop
            invariant
                self.phase < u32::MAX,
                !(self.stage is Data),
                self.stats == old(self).stats,
                self.use_zlib == old(self).use_zlib,
                sender_run(self.model(), *flist, protocol) == sender_run(
                    old(self).model(),
                    *flist,
                    protocol,
                ),
            decreases self.reader@.len(),
        {
            let ghost before = self.model();
            let res: Result<Stepped, WireError> = match self.stage {
                SenderStage::Request => self.request(protocol),
                SenderStage::Sums(ndx) => self.checksums(flist, ndx),
                _ => Ok(Stepped::Finished),
            };
            match res {
                Err(e) => return Err(e),
                Ok(Stepped::Finished) => return Ok(SenderEvent::Finished),
                Ok(Stepped::File(job)) => return Ok(SenderEvent::File(job)),
                Ok(Stepped::Go) => {
                    assert(sender_step(before, *flist, protocol) == SenderNext::Go(self.model()));
                },
            }
        }
    }
}

proof fn lemma_head_shrinks(buf: Seq<u8>)
    ensures
        parse_sum_head(buf) matches Ok((_h, rest)) ==> rest.len() < buf.len(),
{
    reveal(parse_int);
}

proof fn lemma_sums_shrink(buf: Seq<u8>, h: SumHead)
    ensures
        parse_sum_bufs(buf, h) matches Ok((_s, rest)) ==> rest.len() <= buf.len(),
{
    if h.count >= 0 && (h.count == 0 || h.s2length >= 0) {
        lemma_sums_shrink_from(buf, h, Seq::empty());
    }
}

proof fn lemma_sums_shrink_from(buf: Seq<u8>, h: SumHead, so_far: Seq<BlockSum>)
    ensures
        crate::delta::match_blocks::parse_sums(buf, h, so_far) matches Ok((_s, rest))
            ==> rest.len() <= buf.len(),
    decreases h.count - so_far.len(),
{
    reveal(parse_int);
    reveal(parse_bytes);
    if so_far.len() < h.count {
        match parse_int(buf) {
            Err(_) => {},
            Ok((sum1, r1)) => match parse_bytes(r1, h.s2length as int) {
                Err(_) => {},
                Ok((sum2, r2)) => {
                    lemma_sums_shrink_from(
                        r2,
                        h,
                        so_far.push(
                            crate::delta::match_blocks::received_sum(
                                h,
                                so_far.len() as int,
                                sum1,
                                sum2,
                            ),
                        ),
                    );
                },
            },
        }
    }
}

/// Writes what is sent for a file that cannot be sent.
fn send_skipped_xfer(w: &mut Vec<u8>, head: &SumHead)
    ensures
        final(w)@ == old(w)@ + skipped_bytes(*head),
{
    let ghost start = w@;
    write_sum_head(w, head);
    write_int(w, 0);
    let ghost body = w@;
    let mut i: usize = 0;
    assert(w@ =~= body + Seq::new(0, |k: int| 0u8));
    while i < 16
        invariant
            i <= 16,
            w@ == body + Seq::new(i as nat, |k: int| 0u8),
        decreases 16 - i,
    {
        w.push(0);
        i = i + 1;
        assert(w@ =~= body + Seq::new(i as nat, |k: int| 0u8));
    }
    assert(w@ =~= start + skipped_bytes(*head));
}

// ---------------------------------------------------------------------------
// The data of a file
// ---------------------------------------------------------------------------

/// The bytes from `from` on, as far as the file goes.
pub open spec fn piece_of(data: Seq<u8>, from: int, len: int) -> Seq<u8> {
    let a = if from < data.len() {
        from
    } else {
        data.len() as int
    };
    let b = if from + len < data.len() {
        from + len
    } else {
        data.len() as int
    };
    data.subrange(a, b)
}

/// The tokens for some steps, and the literal bytes that are not sent yet.
pub open spec fn step_tokens(ops: Seq<DeltaOp>, data: Seq<u8>) -> (Seq<TokenModel>, Seq<u8>)
    decreases ops.len(),
{
    if ops.len() == 0 {
        (Seq::empty(), Seq::empty())
    } else {
        let (ts, gathered) = step_tokens(ops.drop_last(), data);
        match ops.last() {
            DeltaOp::Literal { offset, len } => {
                let all = gathered + piece_of(data, offset as int, len as int);
                (ts + chunk_tokens(all), chunk_rest(all))
            },
            DeltaOp::Match { block_idx, offset: _ } => (
                ts + literal_token(gathered) + seq![TokenModel::BlockMatch(block_idx as i32)],
                Seq::empty(),
            ),
        }
    }
}

/// The tokens of a whole file.
pub open spec fn file_tokens(ops: Seq<DeltaOp>, data: Seq<u8>) -> Seq<TokenModel> {
    step_tokens(ops, data).0 + literal_token(step_tokens(ops, data).1)
}

/// The state of a compressed stream after some steps.
pub open spec fn deflated_steps(
    m: TxModel,
    ops: Seq<DeltaOp>,
    data: Seq<u8>,
    blength: int,
) -> Result<TxModel, WireError>
    decreases ops.len(),
{
    if ops.len() == 0 {
        Ok(m)
    } else {
        match deflated_steps(m, ops.drop_last(), data, blength) {
            Err(e) => Err(e),
            Ok(n) => match ops.last() {
                DeltaOp::Literal { offset, len } => Ok(
                    TxModel {
                        pending: n.pending + piece_of(data, offset as int, len as int),
                        ..n
                    },
                ),
                DeltaOp::Match { block_idx, offset } => n.matched(
                    block_idx as i32,
                    piece_of(data, offset as int, blength),
                ),
            },
        }
    }
}

/// A compressed stream behind the bytes `output`.
pub open spec fn deflated_start(output: Seq<u8>) -> TxModel {
    TxModel {
        run: RunModel { open: false, start: 0, last: 0, prev: 0 },
        calls: Seq::empty(),
        pending: Seq::empty(),
        output,
    }
}

/// How many bytes of the strong checksums are compared; a header without
/// blocks may say anything.
pub open spec fn strong_len(h: SumHead) -> nat {
    if h.s2length < 0 {
        0
    } else {
        h.s2length as nat
    }
}

/// The steps that describe a file to the receiving side.
pub open spec fn job_steps(job: JobModel, data: Seq<u8>, seed: i32) -> Seq<DeltaOp> {
    delta_of(data, job.head, job.sums, strong_len(job.head), seed as u32)
}

/// What is sent for a file, behind the bytes `output`: the layout, the tokens,
/// and the checksum of the whole file.
pub open spec fn file_output(
    output: Seq<u8>,
    job: JobModel,
    data: Seq<u8>,
    seed: i32,
    use_zlib: bool,
) -> Result<Seq<u8>, WireError> {
    let ops = job_steps(job, data, seed);
    let head = output + sum_head_bytes(job.head);
    let sum = strong_sum(data, ChecksumType::Md5, 0, false);
    if use_zlib {
        match deflated_steps(deflated_start(head), ops, data, job.head.blength as int) {
            Err(e) => Err(e),
            Ok(m) => match m.finished() {
                Err(e) => Err(e),
                Ok(out) => Ok(out + sum),
            },
        }
    } else {
        Ok(head + enc_tokens(file_tokens(ops, data)) + enc_int(0) + sum)
    }
}

/// Whether a file of `len` bytes can be counted: the counters do not overflow.
pub open spec fn can_count(s: Stats, len: int) -> bool {
    0 <= s.total_written && s.total_written + len <= i64::MAX && s.xferred_files < i32::MAX
        && s.num_files < i32::MAX && s.created_files < i32::MAX
}

/// The counters after a file of `len` bytes was sent.
pub open spec fn send_counted(s: Stats, len: int) -> Stats {
    Stats {
        total_written: (s.total_written + len) as i64,
        xferred_files: (s.xferred_files + 1) as i32,
        ..s
    }
}

/// Whether a job can be done: its blocks can be counted.
pub open spec fn job_fits(job: JobModel) -> bool {
    job.sums.len() <= i32::MAX
}

fn piece(data: &[u8], from: u64, len: u64) -> (out: &[u8])
    ensures
        out@ == piece_of(data@, from as int, len as int),
{
    let n: usize = data.len();
    let a: usize = if from < n as u64 {
        from as usize
    } else {
        n
    };
    let b: usize = if from < n as u64 && len < n as u64 - from {
        (from + len) as usize
    } else {
        n
    };
    let out: &[u8] = data.split_at(b).0.split_at(a).1;
    assert(out@ =~= piece_of(data@, from as int, len as int));
    out
}

spec fn indices_fit(ops: Seq<DeltaOp>) -> bool {
    forall|i: int|
        0 <= i < ops.len() ==> match #[trigger] ops[i] {
            DeltaOp::Match { block_idx, offset: _ } => block_idx < i32::MAX,
            DeltaOp::Literal { offset: _, len: _ } => true,
        }
}

fn write_plain(out: Vec<u8>, ops: &Vec<DeltaOp>, data: &[u8]) -> (res: Vec<u8>)
    requires
        indices_fit(ops@),
    ensures
        res@ == out@ + enc_tokens(file_tokens(ops@, data@)) + enc_int(0),
{
    let ghost start = out@;
    let mut tw: TokenWriter = TokenWriter::new(out);
    let mut i: usize = 0;
    assert(tw.output() =~= start + enc_tokens(step_tokens(ops@.take(0), data@).0));
    while i < ops.len()
        invariant
            i <= ops@.len(),
            indices_fit(ops@),
            tw.output() == start + enc_tokens(step_tokens(ops@.take(i as int), data@).0),
            tw.gathered() == step_tokens(ops@.take(i as int), data@).1,
            tw.gathered().len() <= CHUNK_SIZE,
        decreases ops@.len() - i,
    {
        let ghost next = ops@.take(i + 1);
        assert(next.drop_last() =~= ops@.take(i as int));
        assert(next.last() == ops@[i as int]);
        let ghost ts = step_tokens(ops@.take(i as int), data@).0;
        let ghost g = tw.gathered();
        let ghost before = tw.output();
        match &ops[i] {
            DeltaOp::Literal { offset, len } => {
                let p: &[u8] = piece(data, *offset, *len as u64);
                tw.send_literal(p);
                proof {
                    lemma_enc_tokens_concat(ts, chunk_tokens(g + p@));
                    assert(tw.output() =~= start + enc_tokens(ts + chunk_tokens(g + p@)));
                }
            },
            DeltaOp::Match { block_idx, offset: _ } => {
                tw.send_block_match(*block_idx as i32);
                proof {
                    let more = literal_token(g) + seq![TokenModel::BlockMatch(*block_idx as i32)];
                    lemma_enc_tokens_concat(ts, more);
                    assert(ts + more =~= ts + literal_token(g) + seq![
                        TokenModel::BlockMatch(*block_idx as i32),
                    ]);
                    assert(tw.output() =~= start + enc_tokens(ts + more));
                }
            },
        }
        i = i + 1;
    }
    assert(ops@.take(i as int) =~= ops@);
    let ghost ts = step_tokens(ops@, data@).0;
    let ghost g = tw.gathered();
    let res: Vec<u8> = tw.finish();
    proof {
        lemma_enc_tokens_concat(ts, literal_token(g));
        assert(res@ =~= start + enc_tokens(file_tokens(ops@, data@)) + enc_int(0));
    }
    res
}

fn write_deflated(out: Vec<u8>, ops: &Vec<DeltaOp>, data: &[u8], blength: i32) -> (res: Result<
    Vec<u8>,
    WireError,
>)
    requires
        indices_fit(ops@),
        ops@.len() > 0 && blength < 0 ==> forall|i: int|
            0 <= i < ops@.len() ==> !(#[trigger] ops@[i] is Match),
    ensures
        ({
            let want = match deflated_steps(
                deflated_start(out@),
                ops@,
                data@,
                blength as int,
            ) {
                Err(e) => Err(e),
                Ok(m) => m.finished(),
            };
            match res {
                Ok(v) => want == Ok::<Seq<u8>, WireError>(v@),
                Err(e) => want == Err::<Seq<u8>, WireError>(e),
            }
        }),
{
    let ghost start = deflated_start(out@);
    let mut tw: DeflatedTokenWriter = DeflatedTokenWriter::new(out);
    let mut i: usize = 0;
    while i < ops.len()
        invariant
            i <= ops@.len(),
            indices_fit(ops@),
            ops@.len() > 0 && blength < 0 ==> forall|i: int|
                0 <= i < ops@.len() ==> !(#[trigger] ops@[i] is Match),
            start == deflated_start(out@),
            deflated_steps(start, ops@.take(i as int), data@, blength as int) == Ok::<
                TxModel,
                WireError,
            >(tw.model()),
            tw.model().run.counts_from_zero(),
        decreases ops@.len() - i,
    {
        let ghost next = ops@.take(i + 1);
        assert(next.drop_last() =~= ops@.take(i as int));
        assert(next.last() == ops@[i as int]);
        match &ops[i] {
            DeltaOp::Literal { offset, len } => {
                let p: &[u8] = piece(data, *offset, *len as u64);
                tw.send_literal(p);
            },
            DeltaOp::Match { block_idx, offset } => {
                assert(ops@[i as int] is Match);
                let p: &[u8] = piece(data, *offset, blength as u64);
                match tw.send_block_match(*block_idx as i32, p) {
                    Err(e) => {
                        proof {
                            lemma_steps_fail(start, ops@, data@, blength as int, i + 1, e);
                        }
                        return Err(e);
                    },
                    Ok(_) => {},
                }
            },
        }
        i = i + 1;
    }
    assert(ops@.take(i as int) =~= ops@);
    tw.finish()
}

proof fn lemma_steps_fail(
    m: TxModel,
    ops: Seq<DeltaOp>,
    data: Seq<u8>,
    blength: int,
    k: int,
    e: WireError,
)
    requires
        0 <= k <= ops.len(),
        deflated_steps(m, ops.take(k), data, blength) == Err::<TxModel, WireError>(e),
    ensures
        deflated_steps(m, ops, data, blength) == Err::<TxModel, WireError>(e),
    decreases ops.len() - k,
{
    if k < ops.len() {
        assert(ops.take(k + 1).drop_last() =~= ops.take(k));
        lemma_steps_fail(m, ops, data, blength, k + 1, e);
    } else {
        assert(ops.take(k) =~= ops);
    }
}

proof fn lemma_indices(
    data: Seq<u8>,
    ss: Seq<BlockSum>,
    blength: nat,
    strong_len: nat,
    seed: u32,
    from: int,
    offset: int,
)
    requires
        ss.len() <= i32::MAX,
    ensures
        indices_fit(
            crate::delta::match_blocks::delta_from(
                data,
                ss,
                blength,
                strong_len,
                seed,
                from,
                offset,
            ),
        ),
        blength == 0 ==> forall|i: int|
            0 <= i < crate::delta::match_blocks::delta_from(
                data,
                ss,
                blength,
                strong_len,
                seed,
                from,
                offset,
            ).len() ==> !(#[trigger] crate::delta::match_blocks::delta_from(
                data,
                ss,
                blength,
                strong_len,
                seed,
                from,
                offset,
            )[i] is Match),
    decreases data.len() - offset,
{
    if !(blength == 0 || offset < 0 || offset + blength > data.len()) {
        match crate::delta::match_blocks::first_hit(
            ss,
            data.subrange(offset, offset + blength),
            strong_len,
            seed,
            0,
        ) {
            Some(k) => {
                lemma_first_hit(ss, data.subrange(offset, offset + blength), strong_len, seed, 0);
                let tail = crate::delta::match_blocks::delta_from(
                    data,
                    ss,
                    blength,
                    strong_len,
                    seed,
                    offset + blength,
                    offset + blength,
                );
                lemma_indices(
                    data,
                    ss,
                    blength,
                    strong_len,
                    seed,
                    offset + blength,
                    offset + blength,
                );
                let front = crate::delta::match_blocks::literal_op(from, offset) + seq![
                    DeltaOp::Match { block_idx: k as usize, offset: offset as u64 },
                ];
                let all = front + tail;
                assert forall|i: int| 0 <= i < all.len() implies match #[trigger] all[i] {
                    DeltaOp::Match { block_idx, offset: _ } => block_idx < i32::MAX,
                    DeltaOp::Literal { offset: _, len: _ } => true,
                } by {
                    if i >= front.len() {
                        assert(all[i] == tail[i - front.len()]);
                    } else {
                        assert(all[i] == front[i]);
                    }
                }
            },
            None => {
                lemma_indices(data, ss, blength, strong_len, seed, from, offset + 1);
            },
        }
    }
}

proof fn lemma_first_hit(
    ss: Seq<BlockSum>,
    window: Seq<u8>,
    strong_len: nat,
    seed: u32,
    k: nat,
)
    ensures
        crate::delta::match_blocks::first_hit(ss, window, strong_len, seed, k) matches Some(i)
            ==> i < ss.len(),
    decreases ss.len() - k,
{
    if k < ss.len() {
        lemma_first_hit(ss, window, strong_len, seed, k + 1);
    }
}

impl Sender {
    /// Sends the data of a file.  Where it cannot be compressed, nothing changes.
    pub fn send_file(&mut self, job: &FileJob, data: &[u8], checksum_seed: i32) -> (res: Result<
        (),
        WireError,
    >)
        requires
            job_fits(job@),
            can_count(old(self).stats, data@.len() as int),
        ensures
            final(self).reader == old(self).reader,
            final(self).phase == old(self).phase,
            final(self).ndx == old(self).ndx,
            final(self).use_zlib == old(self).use_zlib,
            match res {
                Ok(_) => {
                    &&& file_output(
                        old(self).writer@,
                        job@,
                        data@,
                        checksum_seed,
                        old(self).use_zlib,
                    ) == Ok::<Seq<u8>, WireError>(final(self).writer@)
                    &&& final(self).stage == SenderStage::Request
                    &&& final(self).stats == send_counted(old(self).stats, data@.len() as int)
                    &&& final(self).stats == (Stats {
                        total_written: (old(self).stats.total_written + data@.len()) as i64,
                        xferred_files: (old(self).stats.xferred_files + 1) as i32,
                        ..old(self).stats
                    })
                },
                Err(e) => file_output(
                    old(self).writer@,
                    job@,
                    data@,
                    checksum_seed,
                    old(self).use_zlib,
                ) == Err::<Seq<u8>, WireError>(e) && final(self).writer@ == old(self).writer@
                    && final(self).stage == old(self).stage && final(self).stats == old(self).stats,
            },
    {
        let table: BlockHashTable = BlockHashTable::build(&job.head, job.sums.as_slice());
        let compared: usize = if job.head.s2length < 0 {
            0
        } else {
            job.head.s2length as usize
        };
        let ops: Vec<DeltaOp> = find_matches_seeded(
            data,
            &table,
            compared,
            checksum_seed as u32,
        );
        proof {
            let b = if job.head.blength > 0 {
                job.head.blength as nat
            } else {
                0
            };
            lemma_indices(
                data@,
                job@.sums,
                b,
                strong_len(job.head),
                checksum_seed as u32,
                0,
                0,
            );
        }
        assert(ops@ == job_steps(job@, data@, checksum_seed));
        let mut out: Vec<u8> = copy_bytes(self.writer.as_slice());
        write_sum_head(&mut out, &job.head);
        let mut out: Vec<u8> = if self.use_zlib {
            match write_deflated(out, &ops, data, job.head.blength) {
                Err(e) => return Err(e),
                Ok(v) => v,
            }
        } else {
            write_plain(out, &ops, data)
        };
        let sum: Vec<u8> = StrongChecksum::compute(data, ChecksumType::Md5, 0, false);
        put_bytes(&mut out, sum.as_slice());
        self.writer = out;
        self.stage = SenderStage::Request;
        self.stats.total_written = self.stats.total_written + data.len() as i64;
        self.stats.xferred_files = self.stats.xferred_files + 1;
        Ok(())
    }

    /// Answers for a file whose data cannot be had.
    pub fn skip_file(&mut self, job: &FileJob)
        ensures
            final(self).model() == (SenderModel {
                output: old(self).model().output + skipped_bytes(job.head),
                stage: SenderStage::Request,
                ..old(self).model()
            }),
            final(self).stats == old(self).stats,
            final(self).use_zlib == old(self).use_zlib,
    {
        send_skipped_xfer(&mut self.writer, &job.head);
        self.stage = SenderStage::Request;
    }
}

} // verus!
