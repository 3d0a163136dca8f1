//! The receiving side of a transfer.

use vstd::prelude::*;

use crate::delta::deflate_token::{rx_read, see_stored, DeflatedTokenReader, RxModel, RxState};
use crate::delta::match_blocks::{
    parse_sum_head, read_sum_head, sum_bufs_bytes, sum_head_bytes, write_sum_head,
};
use crate::delta::token::{parse_tokens, read_tokens, token_models, Token, TokenModel};
use crate::io::bytes::{put_bytes, ByteReader, WireError};
use crate::io::parse::{parse_bytes, parse_int, Parsed};
use crate::io::varint::{
    enc_shortint, ndx_start, read_int, read_shortint, write_shortint, NdxPrev, NdxState,
};
use crate::pipeline::generator::{
    all_apply, applies, apply_delta, basis_block, can_be_summed, can_copy, copies, copy_block,
    generate_and_write_checksums, head_of, is_asked_for, is_out_of_date, lemma_head_fits,
    make_sum_head, no_head, rebuilt, sums_of, FileStat, Generator,
};
use crate::pipeline::items::{
    can_write_index, index_after, index_bytes, parse_iflags, parse_index, read_index, write_index,
};
use crate::pipeline::sender::{can_count, file_at, max_phase};
use crate::pipeline::{csum_sum_len, sum_len_of};
use crate::protocol::constants::{
    CsumType, ITEM_IS_NEW, ITEM_REPORT_SIZE, ITEM_REPORT_TIME, ITEM_TRANSFER, NDX_DONE,
};
use crate::protocol::types::{no_stats, FileEntry, FileInfo, FileList, FileType, Stats, SumHead};
use crate::util::{change_text, iflags_to_str};

verus! {

/// Rebuilds a file from tokens and its older version.
pub fn apply_tokens(tokens: Vec<Token>, basis: &[u8], head: &SumHead) -> (out: Vec<u8>)
    requires
        all_apply(token_models(tokens@), *head),
    ensures
        out@ == rebuilt(token_models(tokens@), basis@, *head),
{
    apply_delta(tokens.as_slice(), basis, head)
}

// ---------------------------------------------------------------------------
// Files that come one after the other
// ---------------------------------------------------------------------------

/// What is wrong with what comes in.
#[derive(Clone, Copy, Debug, PartialEq, Eq, Structural)]
pub enum ReceiveError {
    /// A part is cut off or malformed.
    Wire(WireError),
    /// No file has this index.
    BadIndex(i32),
}

/// A file that came in.
#[derive(Debug)]
pub struct Arrival {
    pub ndx: i32,
    /// The layout of the older version that the tokens refer to.
    pub head: SumHead,
    pub tokens: Vec<Token>,
}

/// What comes in next.
#[derive(Debug)]
pub enum ReceiverEvent {
    File(Arrival),
    Finished,
}

/// The model of what comes in next: the index, layout and tokens of a file,
/// or nothing where no more files come.
pub type Incoming = Option<(i32, SumHead, Seq<TokenModel>)>;

/// What comes in next at the front of `buf`.
pub open spec fn parse_arrival(l: FileList, buf: Seq<u8>) -> Result<
    (Incoming, Seq<u8>),
    ReceiveError,
> {
    match parse_int(buf) {
        Err(e) => Err(ReceiveError::Wire(e)),
        Ok((ndx, rest)) => if ndx == NDX_DONE {
            Ok((None, rest))
        } else if file_at(l, ndx) is None {
            Err(ReceiveError::BadIndex(ndx))
        } else {
            match parse_sum_head(rest) {
                Err(e) => Err(ReceiveError::Wire(e)),
                Ok((head, rest)) => match parse_tokens(rest, Seq::empty()) {
                    Err(e) => Err(ReceiveError::Wire(e)),
                    Ok((ts, rest)) => Ok((Some((ndx, head, ts)), rest)),
                },
            }
        },
    }
}

/// Whether an arrival is what came in.
pub open spec fn arrival_is(a: Arrival, i: Incoming) -> bool {
    i == Some((a.ndx, a.head, token_models(a.tokens@)))
}

/// The receiving side where the files come one after the other.
pub struct Receiver {
    pub reader: ByteReader,
    pub stats: Stats,
}

impl Receiver {
    /// A receiver that has read nothing yet.
    pub fn new(reader: ByteReader) -> (r: Receiver)
        ensures
            r.reader == reader,
            r.stats == no_stats(),
    {
        Receiver { reader, stats: Stats::default() }
    }

    /// Reads what comes in next.  Where it is cut off, nothing is taken.
    pub fn run(&mut self, flist: &FileList) -> (res: Result<ReceiverEvent, ReceiveError>)
        ensures
            final(self).stats == old(self).stats,
            match res {
                Ok(ReceiverEvent::Finished) => parse_arrival(*flist, old(self).reader@) == Ok::<
                    (Incoming, Seq<u8>),
                    ReceiveError,
                >((None, final(self).reader@)),
                Ok(ReceiverEvent::File(a)) => parse_arrival(*flist, old(self).reader@) matches Ok(
                    (i, rest),
                ) && arrival_is(a, i) && rest == final(self).reader@,
                Err(e) => parse_arrival(*flist, old(self).reader@) == Err::<
                    (Incoming, Seq<u8>),
                    ReceiveError,
                >(e) && final(self).reader@ == old(self).reader@,
            },
    {
        proof {
            reveal(parse_int);
        }
        let start: usize = self.reader.position();
        let ndx: i32 = match read_int(&mut self.reader) {
            Err(e) => return Err(ReceiveError::Wire(e)),
            Ok(x) => x,
        };
        if ndx == NDX_DONE {
            return Ok(ReceiverEvent::Finished);
        }
        match flist.get_by_ndx(ndx) {
            None => {
                self.reader.seek(start);
                return Err(ReceiveError::BadIndex(ndx));
            },
            Some(_) => {},
        }
        let head: SumHead = match read_sum_head(&mut self.reader) {
            Err(e) => {
                self.reader.seek(start);
                return Err(ReceiveError::Wire(e));
            },
            Ok(h) => h,
        };
        let tokens: Vec<Token> = match read_tokens(&mut self.reader) {
            Err(e) => {
                self.reader.seek(start);
                return Err(ReceiveError::Wire(e));
            },
            Ok(t) => t,
        };
        Ok(ReceiverEvent::File(Arrival { ndx, head, tokens }))
    }

    /// Rebuilds a file that came in, and counts it.  Only regular files count
    /// as created.
    pub fn rebuild(&mut self, fi: &FileInfo, a: Arrival, basis: &[u8]) -> (res: Result<
        Vec<u8>,
        WireError,
    >)
        requires
            can_count(
                old(self).stats,
                rebuilt(token_models(a.tokens@), basis@, a.head).len() as int,
            ),
        ensures
            final(self).reader == old(self).reader,
            match res {
                Ok(data) => {
                    &&& all_apply(token_models(a.tokens@), a.head)
                    &&& data@ == rebuilt(token_models(a.tokens@), basis@, a.head)
                    &&& final(self).stats == arrival_counted(
                        old(self).stats,
                        data@.len() as int,
                        fi@.file_type() == FileType::Regular,
                    )
                },
                Err(e) => e == WireError::NegativeLength && !all_apply(
                    token_models(a.tokens@),
                    a.head,
                ) && final(self).stats == old(self).stats,
            },
    {
        if !applies(a.tokens.as_slice(), &a.head) {
            return Err(WireError::NegativeLength);
        }
        let data: Vec<u8> = apply_tokens(a.tokens, basis, &a.head);
        self.stats.total_written = self.stats.total_written + data.len() as i64;
        if fi.is_regular() {
            self.stats.xferred_files = self.stats.xferred_files + 1;
            self.stats.created_files = self.stats.created_files + 1;
        }
        Ok(data)
    }
}

/// The counters after a file of `len` bytes that was asked for came in.
pub open spec fn receipt_counted(s: Stats, len: int) -> Stats {
    Stats {
        num_files: (s.num_files + 1) as i32,
        xferred_files: (s.xferred_files + 1) as i32,
        created_files: (s.created_files + 1) as i32,
        total_written: (s.total_written + len) as i64,
        ..s
    }
}

/// The counters after a file of `len` bytes came in.
pub open spec fn arrival_counted(s: Stats, len: int, regular: bool) -> Stats {
    if regular {
        Stats {
            total_written: (s.total_written + len) as i64,
            xferred_files: (s.xferred_files + 1) as i32,
            created_files: (s.created_files + 1) as i32,
            ..s
        }
    } else {
        Stats { total_written: (s.total_written + len) as i64, ..s }
    }
}

// ---------------------------------------------------------------------------
// Files that are asked for
// ---------------------------------------------------------------------------

/// What the receiving side sends to ask for a file.
pub open spec fn ask_bytes(
    protocol: u32,
    prev: NdxPrev,
    ndx: i32,
    basis: Option<Seq<u8>>,
    ct: CsumType,
    seed: i32,
) -> Seq<u8> {
    let flags = if protocol >= 29 {
        enc_shortint(ITEM_TRANSFER as u16)
    } else {
        Seq::empty()
    };
    index_bytes(protocol, prev, ndx) + flags + match basis {
        Some(d) => {
            let h = head_of(d.len() as int, sum_len_of(ct));
            sum_head_bytes(h) + sum_bufs_bytes(sums_of(d, h, ct, seed as u32, false))
        },
        None => sum_head_bytes(no_head(sum_len_of(ct))),
    }
}

/// The file that a compressed token stream describes, behind the bytes `out`,
/// from the state `m` of its reader; and the state behind it.  No file has
/// more than `fuel` tokens.
pub open spec fn deflated_file(
    m: RxModel,
    basis: Seq<u8>,
    head: SumHead,
    out: Seq<u8>,
    fuel: nat,
) -> (Result<Seq<u8>, WireError>, RxModel)
    decreases fuel,
{
    if fuel == 0 {
        (Err(WireError::InflateStalled), m)
    } else {
        match rx_read(m) {
            (Err(e), n) => (Err(e), n),
            (Ok(None), n) => (Ok(out), n),
            (Ok(Some(TokenModel::Literal(b))), n) => deflated_file(
                n,
                basis,
                head,
                out + b,
                (fuel - 1) as nat,
            ),
            (Ok(Some(TokenModel::BlockMatch(i))), n) => if !can_copy(head, i as int) {
                (Err(WireError::NegativeLength), n)
            } else {
                match see_stored(n.calls, basis_block(basis, head, i as int)) {
                    Err(e) => (Err(e), n),
                    Ok(c) => deflated_file(
                        RxModel { calls: c, ..n },
                        basis,
                        head,
                        out + basis_block(basis, head, i as int),
                        (fuel - 1) as nat,
                    ),
                }
            },
        }
    }
}

/// A reader of a compressed token stream at the start of a file.
pub open spec fn deflated_reader(input: Seq<u8>) -> RxModel {
    RxModel {
        state: RxState::Init,
        token: 0,
        run: 0,
        saved: None,
        cbuf: Seq::empty(),
        calls: Seq::empty(),
        input,
    }
}

/// The file that the tokens at the front of `buf` describe.
pub open spec fn parse_file(buf: Seq<u8>, basis: Seq<u8>, head: SumHead, use_zlib: bool) -> Parsed<
    Seq<u8>,
> {
    if use_zlib {
        match deflated_file(deflated_reader(buf), basis, head, Seq::empty(), u64::MAX as nat) {
            (Err(e), _) => Err(e),
            (Ok(data), n) => Ok((data, n.input)),
        }
    } else {
        match parse_tokens(buf, Seq::empty()) {
            Err(e) => Err(e),
            Ok((ts, rest)) => if !all_apply(ts, head) {
                Err(WireError::NegativeLength)
            } else {
                Ok((rebuilt(ts, basis, head), rest))
            },
        }
    }
}

/// The answer to a request at the front of `buf`: the file, what is remembered
/// of indices, and the checksum of the whole file.
pub open spec fn parse_answer(
    protocol: u32,
    prev: NdxPrev,
    buf: Seq<u8>,
    basis: Seq<u8>,
    use_zlib: bool,
    sum_len: int,
) -> Parsed<(Seq<u8>, NdxPrev, Seq<u8>)> {
    match parse_index(protocol, prev, buf) {
        Err(e) => Err(e),
        Ok(((_ndx, next), rest)) => match parse_iflags(protocol, rest) {
            Err(e) => Err(e),
            Ok((_flags, rest)) => match parse_sum_head(rest) {
                Err(e) => Err(e),
                Ok((head, rest)) => match parse_file(rest, basis, head, use_zlib) {
                    Err(e) => Err(e),
                    Ok((data, rest)) => match parse_bytes(rest, sum_len) {
                        Err(e) => Err(e),
                        Ok((sum, rest)) => Ok(((data, next, sum), rest)),
                    },
                },
            },
        },
    }
}

/// What the two sides do to part.
#[derive(Clone, Copy, Debug, PartialEq, Eq, Structural)]
pub enum GoodbyeStep {
    /// Say that this side is done.
    Send,
    /// Wait for the other side to say so.
    Read,
    /// Take it if the other side says so.
    TryRead,
}

/// One step for each phase and what the sending side answers to it.
pub open spec fn phase_steps(n: nat) -> Seq<GoodbyeStep>
    decreases n,
{
    if n == 0 {
        Seq::empty()
    } else {
        phase_steps((n - 1) as nat) + seq![GoodbyeStep::Send, GoodbyeStep::Read]
    }
}

/// How the receiving side parts.
pub open spec fn goodbye_steps(protocol: u32) -> Seq<GoodbyeStep> {
    phase_steps(max_phase(protocol) as nat) + seq![GoodbyeStep::Send, GoodbyeStep::Send]
        + if protocol >= 31 {
        seq![GoodbyeStep::Read, GoodbyeStep::Send]
    } else {
        Seq::empty()
    } + seq![GoodbyeStep::TryRead]
}

/// How the receiving side parts.
pub fn goodbye_plan(protocol: u32) -> (plan: Vec<GoodbyeStep>)
    ensures
        plan@ == goodbye_steps(protocol),
{
    let mut plan: Vec<GoodbyeStep> = Vec::new();
    let n: u32 = if protocol >= 29 {
        2
    } else {
        1
    };
    let mut i: u32 = 0;
    assert(plan@ =~= phase_steps(0));
    while i < n
        invariant
            i <= n,
            plan@ == phase_steps(i as nat),
        decreases n - i,
    {
        plan.push(GoodbyeStep::Send);
        plan.push(GoodbyeStep::Read);
        i = i + 1;
        assert(plan@ =~= phase_steps(i as nat));
    }
    plan.push(GoodbyeStep::Send);
    plan.push(GoodbyeStep::Send);
    if protocol >= 31 {
        plan.push(GoodbyeStep::Read);
        plan.push(GoodbyeStep::Send);
    }
    plan.push(GoodbyeStep::TryRead);
    assert(plan@ =~= goodbye_steps(protocol));
    plan
}

/// What is reported of a file that came in: `existed` says whether there was
/// an older version.
pub open spec fn report_of(f: FileEntry, existed: bool) -> Seq<char> {
    let iflags = if existed {
        (ITEM_TRANSFER + ITEM_REPORT_SIZE + ITEM_REPORT_TIME) as u32
    } else {
        (ITEM_IS_NEW + ITEM_TRANSFER) as u32
    };
    change_text(iflags, f.mode, false) + " "@ + f.path()
}

/// Reports a file that came in.
pub fn report_line(fi: &FileInfo, existed: bool) -> (s: String)
    ensures
        s@ == report_of(fi@, existed),
{
    let iflags: u32 = if existed {
        ITEM_TRANSFER + ITEM_REPORT_SIZE + ITEM_REPORT_TIME
    } else {
        ITEM_IS_NEW + ITEM_TRANSFER
    };
    let mut s: String = iflags_to_str(iflags, fi.mode, false);
    s.push_str(" ");
    s.push_str(fi.path().as_str());
    s
}

/// The receiving side where files are asked for.
pub struct ServerReceiver {
    pub reader: ByteReader,
    pub writer: Vec<u8>,
    pub stats: Stats,
    pub ndx: NdxState,
    pub protocol: u32,
    pub csum_type: CsumType,
    pub checksum_seed: i32,
    pub use_zlib: bool,
}

fn read_deflated(input: Vec<u8>, basis: &[u8], head: &SumHead) -> (res: Result<
    (Vec<u8>, ByteReader),
    WireError,
>)
    ensures
        match res {
            Ok((data, rest)) => parse_file(input@, basis@, *head, true) == Ok::<
                (Seq<u8>, Seq<u8>),
                WireError,
            >((data@, rest@)),
            Err(e) => parse_file(input@, basis@, *head, true) == Err::<
                (Seq<u8>, Seq<u8>),
                WireError,
            >(e),
        },
{
    let ghost start = deflated_file(
        deflated_reader(input@),
        basis@,
        *head,
        Seq::empty(),
        u64::MAX as nat,
    );
    let mut tr: DeflatedTokenReader = DeflatedTokenReader::new(ByteReader::new(input));
    let mut out: Vec<u8> = Vec::new();
    let mut fuel: u64 = u64::MAX;
    assert(out@ =~= Seq::<u8>::empty());
    while fuel > 0
        invariant
            deflated_file(tr.model(), basis@, *head, out@, fuel as nat) == start,
            start == deflated_file(
                deflated_reader(input@),
                basis@,
                *head,
                Seq::empty(),
                u64::MAX as nat,
            ),
        decreases fuel,
    {
        let ghost m = tr.model();
        match tr.read_token() {
            Err(e) => return Err(e),
            Ok(None) => return Ok((out, tr.into_inner())),
            Ok(Some(Token::Literal(b))) => put_bytes(&mut out, b.as_slice()),
            Ok(Some(Token::BlockMatch(i))) => {
                if !copies(head, i) {
                    return Err(WireError::NegativeLength);
                }
                let mut block: Vec<u8> = Vec::new();
                copy_block(&mut block, basis, head, i);
                assert(block@ =~= basis_block(basis@, *head, i as int));
                match tr.see_block(block.as_slice()) {
                    Err(e) => return Err(e),
                    Ok(_) => {},
                }
                put_bytes(&mut out, block.as_slice());
            },
        }
        fuel = fuel - 1;
    }
    Err(WireError::InflateStalled)
}

impl ServerReceiver {
    /// A receiver that has asked for nothing yet.
    pub fn new(
        reader: ByteReader,
        writer: Vec<u8>,
        protocol: u32,
        csum_type: CsumType,
        checksum_seed: i32,
        use_zlib: bool,
    ) -> (r: ServerReceiver)
        ensures
            r.reader == reader,
            r.writer == writer,
            r.stats == no_stats(),
            r.ndx == (NdxState { read: ndx_start(), write: ndx_start() }),
            r.protocol == protocol,
            r.csum_type == csum_type,
            r.checksum_seed == checksum_seed,
            r.use_zlib == use_zlib,
    {
        ServerReceiver {
            reader,
            writer,
            stats: Stats::default(),
            ndx: NdxState::new(),
            protocol,
            csum_type,
            checksum_seed,
            use_zlib,
        }
    }

    /// Whether a file is asked for.
    pub fn wants(fi: &FileInfo, found: Option<FileStat>) -> (b: bool)
        ensures
            b == is_asked_for(fi@, found, false),
            b == (fi@.file_type() == FileType::Regular && is_out_of_date(fi@, found)),
    {
        Generator::wants(fi, found, false)
    }

    /// Asks for the file `i` of the list.  `basis` is the older version, where
    /// there is one.
    #[verifier::rlimit(60)]
    pub fn request(&mut self, flist: &FileList, i: usize, basis: Option<&[u8]>)
        requires
            i < flist.files@.len(),
            flist.ndx_start + i <= i32::MAX,
            can_write_index(old(self).protocol, (flist.ndx_start + i) as i32),
            basis matches Some(d) ==> can_be_summed(d@.len() as int),
        ensures
            final(self).writer@ == old(self).writer@ + ask_bytes(
                old(self).protocol,
                old(self).ndx.write,
                (flist.ndx_start + i) as i32,
                match basis {
                    Some(d) => Some(d@),
                    None => None,
                },
                old(self).csum_type,
                old(self).checksum_seed,
            ),
            final(self).ndx == (NdxState {
                write: index_after(
                    old(self).protocol,
                    old(self).ndx.write,
                    (flist.ndx_start + i) as i32,
                ),
                ..old(self).ndx
            }),
            final(self).reader == old(self).reader,
            final(self).stats == old(self).stats,
            final(self).protocol == old(self).protocol,
            final(self).csum_type == old(self).csum_type,
            final(self).checksum_seed == old(self).checksum_seed,
            final(self).use_zlib == old(self).use_zlib,
    {
        let ghost start = self.writer@;
        let ndx: i32 = (flist.ndx_start as i64 + i as i64) as i32;
        write_index(&mut self.writer, &mut self.ndx, self.protocol, ndx);
        if self.protocol >= 29 {
            write_shortint(&mut self.writer, ITEM_TRANSFER as u16);
        }
        let sum_len: i32 = csum_sum_len(self.csum_type);
        match basis {
            Some(d) => {
                proof {
                    lemma_head_fits(d@.len() as int, sum_len);
                }
                let head: SumHead = make_sum_head(d.len() as i64, sum_len);
                write_sum_head(&mut self.writer, &head);
                generate_and_write_checksums(
                    &mut self.writer,
                    d,
                    &head,
                    self.csum_type,
                    self.checksum_seed as u32,
                    false,
                );
                assert(self.writer@ =~= start + ask_bytes(
                    self.protocol,
                    old(self).ndx.write,
                    ndx,
                    Some(d@),
                    self.csum_type,
                    self.checksum_seed,
                ));
            },
            None => {
                let head: SumHead = SumHead { count: 0, blength: 0, remainder: 0, s2length: sum_len };
                write_sum_head(&mut self.writer, &head);
                assert(self.writer@ =~= start + ask_bytes(
                    self.protocol,
                    old(self).ndx.write,
                    ndx,
                    None,
                    self.csum_type,
                    self.checksum_seed,
                ));
            },
        }
    }

    /// Reads the answer to a request: the file and the checksum that was sent
    /// with it.  Where it is cut off, nothing is taken.
    pub fn receive(&mut self, basis: &[u8]) -> (res: Result<(Vec<u8>, Vec<u8>), WireError>)
        ensures
            ({
                let want = parse_answer(
                    old(self).protocol,
                    old(self).ndx.read,
                    old(self).reader@,
                    basis@,
                    old(self).use_zlib,
                    sum_len_of(old(self).csum_type) as int,
                );
                match res {
                    Ok((data, sum)) => want == Ok::<((Seq<u8>, NdxPrev, Seq<u8>), Seq<u8>), WireError>(
                        ((data@, final(self).ndx.read, sum@), final(self).reader@),
                    ) && final(self).ndx == (NdxState {
                        read: final(self).ndx.read,
                        ..old(self).ndx
                    }),
                    Err(e) => want == Err::<((Seq<u8>, NdxPrev, Seq<u8>), Seq<u8>), WireError>(e)
                        && final(self).reader@ == old(self).reader@ && final(self).ndx == old(self).ndx,
                }
            }),
            final(self).writer == old(self).writer,
            final(self).stats == old(self).stats,
            final(self).protocol == old(self).protocol,
            final(self).csum_type == old(self).csum_type,
            final(self).checksum_seed == old(self).checksum_seed,
            final(self).use_zlib == old(self).use_zlib,
    {
        proof {
            reveal(crate::io::parse::parse_shortint);
            reveal(parse_bytes);
        }
        let start: usize = self.reader.position();
        let before: NdxState = self.ndx;
        match read_index(&mut self.reader, &mut self.ndx, self.protocol) {
            Err(e) => return Err(e),
            Ok(_) => {},
        }
        if self.protocol >= 29 {
            match read_shortint(&mut self.reader) {
                Err(e) => {
                    self.reader.seek(start);
                    self.ndx = before;
                    return Err(e);
                },
                Ok(_) => {},
            }
        }
        let head: SumHead = match read_sum_head(&mut self.reader) {
            Err(e) => {
                self.reader.seek(start);
                self.ndx = before;
                return Err(e);
            },
            Ok(h) => h,
        };
        let n: usize = csum_sum_len(self.csum_type) as usize;
        if self.use_zlib {
            match read_deflated(self.reader.rest(), basis, &head) {
                Err(e) => {
                    self.reader.seek(start);
                    self.ndx = before;
                    Err(e)
                },
                Ok((data, rest)) => {
                    let mut rest: ByteReader = rest;
                    match rest.take_bytes(n) {
                        Err(e) => {
                            self.reader.seek(start);
                            self.ndx = before;
                            Err(e)
                        },
                        Ok(sum) => {
                            self.reader = rest;
                            Ok((data, sum))
                        },
                    }
                },
            }
        } else {
            let tokens: Vec<Token> = match read_tokens(&mut self.reader) {
                Err(e) => {
                    self.reader.seek(start);
                    self.ndx = before;
                    return Err(e);
                },
                Ok(t) => t,
            };
            if !applies(tokens.as_slice(), &head) {
                self.reader.seek(start);
                self.ndx = before;
                return Err(WireError::NegativeLength);
            }
            let data: Vec<u8> = apply_tokens(tokens, basis, &head);
            match self.reader.take_bytes(n) {
                Err(e) => {
                    self.reader.seek(start);
                    self.ndx = before;
                    Err(e)
                },
                Ok(sum) => Ok((data, sum)),
            }
        }
    }

    /// Counts a file that came in.
    pub fn count_file(&mut self, len: usize)
        requires
            can_count(old(self).stats, len as int),
        ensures
            final(self).stats == receipt_counted(old(self).stats, len as int),
            final(self).stats == (Stats {
                num_files: (old(self).stats.num_files + 1) as i32,
                xferred_files: (old(self).stats.xferred_files + 1) as i32,
                created_files: (old(self).stats.created_files + 1) as i32,
                total_written: (old(self).stats.total_written + len) as i64,
                ..old(self).stats
            }),
            final(self).reader == old(self).reader,
            final(self).writer == old(self).writer,
            final(self).ndx == old(self).ndx,
            final(self).protocol == old(self).protocol,
            final(self).csum_type == old(self).csum_type,
            final(self).checksum_seed == old(self).checksum_seed,
            final(self).use_zlib == old(self).use_zlib,
    {
        self.stats.num_files = self.stats.num_files + 1;
        self.stats.xferred_files = self.stats.xferred_files + 1;
        self.stats.created_files = self.stats.created_files + 1;
        self.stats.total_written = self.stats.total_written + len as i64;
    }

    /// Says that this side is done.
    pub fn send_done(&mut self)
        ensures
            final(self).writer@ == old(self).writer@ + index_bytes(
                old(self).protocol,
                old(self).ndx.write,
                NDX_DONE,
            ),
            final(self).ndx == old(self).ndx,
            final(self).reader == old(self).reader,
            final(self).stats == old(self).stats,
            final(self).protocol == old(self).protocol,
            final(self).csum_type == old(self).csum_type,
            final(self).checksum_seed == old(self).checksum_seed,
            final(self).use_zlib == old(self).use_zlib,
    {
        write_index(&mut self.writer, &mut self.ndx, self.protocol, NDX_DONE);
    }

    /// Reads an index while the two sides part.
    pub fn read_done(&mut self) -> (res: Result<i32, WireError>)
        ensures
            match res {
                Ok(ndx) => parse_index(
                    old(self).protocol,
                    old(self).ndx.read,
                    old(self).reader@,
                ) == Ok::<((i32, NdxPrev), Seq<u8>), WireError>(
                    ((ndx, final(self).ndx.read), final(self).reader@),
                ) && final(self).ndx.write == old(self).ndx.write,
                Err(e) => parse_index(
                    old(self).protocol,
                    old(self).ndx.read,
                    old(self).reader@,
                ) == Err::<((i32, NdxPrev), Seq<u8>), WireError>(e) && final(self).reader@ == old(self).reader@ && final(self).ndx == old(self).ndx,
            },
            final(self).writer == old(self).writer,
            final(self).stats == old(self).stats,
            final(self).protocol == old(self).protocol,
            final(self).csum_type == old(self).csum_type,
            final(self).checksum_seed == old(self).checksum_seed,
            final(self).use_zlib == old(self).use_zlib,
    {
        read_index(&mut self.reader, &mut self.ndx, self.protocol)
    }

    /// Adds received bytes.
    pub fn feed(&mut self, more: &[u8])
        ensures
            final(self).reader@ == old(self).reader@ + more@,
            final(self).writer == old(self).writer,
            final(self).ndx == old(self).ndx,
            final(self).stats == old(self).stats,
            final(self).protocol == old(self).protocol,
            final(self).csum_type == old(self).csum_type,
            final(self).checksum_seed == old(self).checksum_seed,
            final(self).use_zlib == old(self).use_zlib,
    {
        self.reader.extend(more);
    }

    /// Hands out what is to be sent.
    pub fn take_output(&mut self) -> (out: Vec<u8>)
        ensures
            out@ == old(self).writer@,
            final(self).writer@ == Seq::<u8>::empty(),
            final(self).reader == old(self).reader,
            final(self).ndx == old(self).ndx,
            final(self).stats == old(self).stats,
            final(self).protocol == old(self).protocol,
            final(self).csum_type == old(self).csum_type,
            final(self).checksum_seed == old(self).checksum_seed,
            final(self).use_zlib == old(self).use_zlib,
    {
        let out: Vec<u8> = self.writer.split_off(0);
        assert(out@ =~= old(self).writer@);
        assert(self.writer@ =~= Seq::<u8>::empty());
        out
    }
}

} // verus!
