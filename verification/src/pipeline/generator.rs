//! Asking for files, and rebuilding them.

use vstd::prelude::*;

use crate::checksum::rolling::{checksum1, rolling_sum};
use crate::checksum::strong::{strong_sum, StrongChecksum};
use crate::delta::match_blocks::{
    block_len, sum_bufs_bytes, sum_head_bytes, write_sum_bufs, write_sum_head, NO_CHAIN,
};
use crate::delta::token::{token_models, Token, TokenModel};
use crate::io::bytes::put_bytes;
use crate::io::varint::{enc_int, write_int};
use crate::pipeline::{
    computed_type, csum_sum_len, csum_type_to_checksum_type, sum_len_of,
};
use crate::protocol::constants::{CsumType, NDX_DONE};
use crate::protocol::types::{
    block_sums, entries, no_stats, BlockSum, FileEntry, FileInfo, FileList, FileType, Stats, SumBuf,
    SumHead,
};
use crate::util::{
    block_count, block_len_for_file, last_block, remainder_for_file, sum_count_for_file,
};

verus! {

// ---------------------------------------------------------------------------
// The blocks of a file
// ---------------------------------------------------------------------------

/// The layout of a file's blocks.
pub open spec fn head_of(file_size: int, sum_len: i32) -> SumHead {
    let blength = crate::util::block_len(file_size);
    SumHead {
        count: block_count(file_size, blength) as i32,
        blength: blength as i32,
        remainder: last_block(file_size, blength) as i32,
        s2length: sum_len,
    }
}

/// The layout of a file's blocks.
pub fn make_sum_head(file_size: i64, sum_len: i32) -> (h: SumHead)
    requires
        file_size + 0x20000 <= i64::MAX,
    ensures
        h == head_of(file_size as int, sum_len),
{
    let blength: i32 = block_len_for_file(file_size);
    let count: i32 = sum_count_for_file(file_size, blength);
    let remainder: i32 = remainder_for_file(file_size, blength);
    SumHead { count, blength, remainder, s2length: sum_len }
}

/// The layout of a file that is not there: no blocks.
pub open spec fn no_head(sum_len: i32) -> SumHead {
    SumHead { count: 0, blength: 0, remainder: 0, s2length: sum_len }
}

/// Whether a layout says that there are blocks.
pub open spec fn head_has_blocks(h: SumHead) -> bool {
    h.count != 0 && h.blength != 0
}

/// Whether a layout fits a file: every block starts within the file.
pub open spec fn head_fits(h: SumHead, len: int) -> bool {
    &&& h.count >= 0
    &&& h.blength >= 0
    &&& h.remainder >= 0
    &&& h.s2length >= 0
    &&& head_has_blocks(h) ==> (h.count - 1) * h.blength <= len
}

/// Where block `i` ends in a file of `len` bytes.
pub open spec fn block_end(h: SumHead, i: int, len: int) -> int {
    let end = i * h.blength + block_len(h, i);
    if end < len {
        end
    } else {
        len
    }
}

/// The bytes of block `i`.
pub open spec fn block_of(data: Seq<u8>, h: SumHead, i: int) -> Seq<u8> {
    data.subrange(i * h.blength, block_end(h, i, data.len() as int))
}

/// As many bytes of a strong checksum as are sent.
pub open spec fn sent_sum(sum: Seq<u8>, n: int) -> Seq<u8> {
    if n < sum.len() {
        sum.take(n)
    } else {
        sum
    }
}

/// The checksums of block `i`.
pub open spec fn sum_of_block(
    data: Seq<u8>,
    h: SumHead,
    i: int,
    ct: CsumType,
    seed: u32,
    proper_seed_order: bool,
) -> BlockSum {
    BlockSum {
        offset: (i * h.blength) as i64,
        len: block_len(h, i),
        sum1: rolling_sum(block_of(data, h, i)),
        chain: NO_CHAIN,
        flags: 0,
        sum2: sent_sum(
            strong_sum(block_of(data, h, i), computed_type(ct), seed, proper_seed_order),
            h.s2length as int,
        ),
    }
}

/// The checksums of a file's blocks.
pub open spec fn sums_of(
    data: Seq<u8>,
    h: SumHead,
    ct: CsumType,
    seed: u32,
    proper_seed_order: bool,
) -> Seq<BlockSum> {
    if head_has_blocks(h) {
        Seq::new(
            h.count as nat,
            |i: int| sum_of_block(data, h, i, ct, seed, proper_seed_order),
        )
    } else {
        Seq::empty()
    }
}

proof fn lemma_block_start(h: SumHead, i: int, len: int)
    requires
        head_fits(h, len),
        head_has_blocks(h),
        0 <= i < h.count,
    ensures
        0 <= i * h.blength <= len,
        0 <= i * h.blength <= block_end(h, i, len) <= len,
        i * h.blength <= 0x4000_0000_0000_0000,
{
    assert(i * h.blength <= (h.count - 1) * h.blength) by (nonlinear_arith)
        requires
            i <= h.count - 1,
            h.blength >= 0,
    ;
    assert(0 <= i * h.blength) by (nonlinear_arith)
        requires
            i >= 0,
            h.blength >= 0,
    ;
    assert(i * h.blength <= 0x4000_0000_0000_0000) by (nonlinear_arith)
        requires
            0 <= i <= 0x7fff_ffff,
            0 <= h.blength <= 0x7fff_ffff,
    ;
}

/// The checksums of one block.
fn sum_block(
    data: &[u8],
    head: &SumHead,
    i: usize,
    ct: CsumType,
    seed: u32,
    proper_seed_order: bool,
) -> (s: SumBuf)
    requires
        head_fits(*head, data@.len() as int),
        head_has_blocks(*head),
        i < head.count,
    ensures
        s@ == sum_of_block(data@, *head, i as int, ct, seed, proper_seed_order),
{
    proof {
        lemma_block_start(*head, i as int, data@.len() as int);
    }
    let is_last: bool = i as i64 == head.count as i64 - 1;
    let len: i32 = if is_last && head.remainder != 0 {
        head.remainder
    } else {
        head.blength
    };
    let start: u64 = i as u64 * head.blength as u64;
    let total: u64 = data.len() as u64;
    let end: u64 = if total - start < len as u64 {
        total
    } else {
        start + len as u64
    };
    let block: &[u8] = data.split_at(end as usize).0.split_at(start as usize).1;
    assert(block@ =~= block_of(data@, *head, i as int));
    let sum1: u32 = checksum1(block);
    let full: Vec<u8> = StrongChecksum::compute(
        block,
        csum_type_to_checksum_type(ct),
        seed,
        proper_seed_order,
    );
    let mut sum2: Vec<u8> = Vec::new();
    let n: usize = head.s2length as usize;
    if n < full.len() {
        put_bytes(&mut sum2, full.as_slice().split_at(n).0);
    } else {
        put_bytes(&mut sum2, full.as_slice());
    }
    assert(sum2@ =~= sent_sum(full@, head.s2length as int));
    SumBuf { offset: start as i64, len, sum1, chain: NO_CHAIN, flags: 0, sum2 }
}

/// Computes the checksums of a file's blocks.
pub fn compute_sum_bufs(
    data: &[u8],
    head: &SumHead,
    csum_type: CsumType,
    seed: u32,
    proper_seed_order: bool,
) -> (sums: Vec<SumBuf>)
    requires
        head_fits(*head, data@.len() as int),
    ensures
        block_sums(sums@) == sums_of(data@, *head, csum_type, seed, proper_seed_order),
{
    let mut sums: Vec<SumBuf> = Vec::new();
    let ghost want = sums_of(data@, *head, csum_type, seed, proper_seed_order);
    if head.count == 0 || head.blength == 0 {
        assert(block_sums(sums@) =~= want);
        return sums;
    }
    let mut i: usize = 0;
    assert(block_sums(sums@) =~= want.take(0));
    while i < head.count as usize
        invariant
            i <= head.count,
            head_fits(*head, data@.len() as int),
            head_has_blocks(*head),
            want == sums_of(data@, *head, csum_type, seed, proper_seed_order),
            block_sums(sums@) == want.take(i as int),
        decreases head.count - i,
    {
        let s: SumBuf = sum_block(data, head, i, csum_type, seed, proper_seed_order);
        let ghost before = block_sums(sums@);
        sums.push(s);
        assert(block_sums(sums@) =~= before.push(s@));
        assert(want.take(i + 1) =~= want.take(i as int).push(want[i as int]));
        i = i + 1;
    }
    assert(want.take(i as int) =~= want);
    sums
}

/// Computes and writes the checksums of a file's blocks.
pub fn generate_and_write_checksums(
    w: &mut Vec<u8>,
    data: &[u8],
    head: &SumHead,
    csum_type: CsumType,
    seed: u32,
    proper_seed_order: bool,
)
    requires
        head_fits(*head, data@.len() as int),
    ensures
        final(w)@ == old(w)@ + sum_bufs_bytes(
            sums_of(data@, *head, csum_type, seed, proper_seed_order),
        ),
{
    let sums: Vec<SumBuf> = compute_sum_bufs(data, head, csum_type, seed, proper_seed_order);
    write_sum_bufs(w, sums.as_slice());
}

pub proof fn lemma_head_fits(file_size: int, sum_len: i32)
    requires
        0 <= file_size,
        0 <= sum_len,
    ensures
        can_be_summed(file_size) ==> head_fits(head_of(file_size, sum_len), file_size),
{
    let b = crate::util::block_len(file_size);
    let n = block_count(file_size, b);
    if file_size > 0 {
        assert((n - 1) * b <= file_size && n >= 0 && 0 <= file_size % b < b) by (nonlinear_arith)
            requires
                b > 0,
                file_size > 0,
                n == (file_size + b - 1) / b,
        ;
    }
}

// ---------------------------------------------------------------------------
// Rebuilding a file
// ---------------------------------------------------------------------------

/// The bytes of the older version that a reference to block `i` stands for;
/// none where the block lies behind its end.
pub open spec fn basis_block(basis: Seq<u8>, h: SumHead, i: int) -> Seq<u8> {
    if 0 <= i * h.blength < basis.len() {
        block_of(basis, h, i)
    } else {
        Seq::empty()
    }
}

/// What a token adds to the file.
pub open spec fn token_bytes(t: TokenModel, basis: Seq<u8>, h: SumHead) -> Seq<u8> {
    match t {
        TokenModel::Literal(b) => b,
        TokenModel::BlockMatch(i) => basis_block(basis, h, i as int),
    }
}

/// The file that some tokens describe.
pub open spec fn rebuilt(ts: Seq<TokenModel>, basis: Seq<u8>, h: SumHead) -> Seq<u8>
    decreases ts.len(),
{
    if ts.len() == 0 {
        Seq::empty()
    } else {
        rebuilt(ts.drop_last(), basis, h) + token_bytes(ts.last(), basis, h)
    }
}

/// Whether block `i` can be copied: neither it nor its length is negative.
pub open spec fn can_copy(h: SumHead, i: int) -> bool {
    i >= 0 && h.blength >= 0 && (i == h.count - 1 ==> h.remainder >= 0)
}

/// Whether a token can be applied: literal bytes always, a block where it can
/// be copied.
pub open spec fn can_apply(t: TokenModel, h: SumHead) -> bool {
    t matches TokenModel::BlockMatch(i) ==> can_copy(h, i as int)
}

/// Whether all of some tokens can be applied.
pub open spec fn all_apply(ts: Seq<TokenModel>, h: SumHead) -> bool {
    forall|i: int| 0 <= i < ts.len() ==> can_apply(#[trigger] ts[i], h)
}

/// Tests whether a block can be copied.
pub fn copies(head: &SumHead, i: i32) -> (b: bool)
    ensures
        b == can_copy(*head, i as int),
{
    i >= 0 && head.blength >= 0 && (i as i64 != head.count as i64 - 1 || head.remainder >= 0)
}

/// Tests whether all of some tokens can be applied.
pub fn applies(tokens: &[Token], head: &SumHead) -> (b: bool)
    ensures
        b == all_apply(token_models(tokens@), *head),
{
    let ghost ts = token_models(tokens@);
    let mut k: usize = 0;
    while k < tokens.len()
        invariant
            k <= tokens@.len(),
            ts == token_models(tokens@),
            forall|i: int| 0 <= i < k ==> can_apply(#[trigger] ts[i], *head),
        decreases tokens@.len() - k,
    {
        assert(ts[k as int] == tokens@[k as int]@);
        match &tokens[k] {
            Token::Literal(_) => {},
            Token::BlockMatch(i) => {
                if !copies(head, *i) {
                    return false;
                }
            },
        }
        k = k + 1;
    }
    true
}

/// Adds the block of the older version that a reference stands for.
pub fn copy_block(out: &mut Vec<u8>, basis: &[u8], head: &SumHead, i: i32)
    requires
        can_copy(*head, i as int),
    ensures
        final(out)@ == old(out)@ + basis_block(basis@, *head, i as int),
{
    assert(0 <= i * head.blength <= 0x4000_0000_0000_0000) by (nonlinear_arith)
        requires
            0 <= i <= 0x7fff_ffff,
            0 <= head.blength <= 0x7fff_ffff,
    ;
    let start: u64 = i as u64 * head.blength as u64;
    let total: u64 = basis.len() as u64;
    if start >= total {
        assert(out@ =~= old(out)@ + basis_block(basis@, *head, i as int));
        return;
    }
    let is_last: bool = i as i64 == head.count as i64 - 1;
    let len: i32 = if is_last && head.remainder != 0 {
        head.remainder
    } else {
        head.blength
    };
    let end: u64 = if total - start < len as u64 {
        total
    } else {
        start + len as u64
    };
    let block: &[u8] = basis.split_at(end as usize).0.split_at(start as usize).1;
    assert(block@ =~= block_of(basis@, *head, i as int));
    put_bytes(out, block);
}

/// Rebuilds a file from tokens and its older version.
pub fn apply_delta(tokens: &[Token], basis_data: &[u8], head: &SumHead) -> (out: Vec<u8>)
    requires
        all_apply(token_models(tokens@), *head),
    ensures
        out@ == rebuilt(token_models(tokens@), basis_data@, *head),
{
    let ghost ts = token_models(tokens@);
    let mut out: Vec<u8> = Vec::new();
    let mut k: usize = 0;
    assert(out@ =~= rebuilt(ts.take(0), basis_data@, *head));
    while k < tokens.len()
        invariant
            k <= tokens@.len(),
            ts == token_models(tokens@),
            all_apply(ts, *head),
            out@ == rebuilt(ts.take(k as int), basis_data@, *head),
        decreases tokens@.len() - k,
    {
        let ghost next = ts.take(k + 1);
        assert(next.drop_last() =~= ts.take(k as int));
        assert(next.last() == tokens@[k as int]@);
        match &tokens[k] {
            Token::Literal(data) => put_bytes(&mut out, data.as_slice()),
            Token::BlockMatch(i) => {
                assert(can_apply(ts[k as int], *head));
                copy_block(&mut out, basis_data, head, *i);
            },
        }
        k = k + 1;
    }
    assert(ts.take(k as int) =~= ts);
    out
}

// ---------------------------------------------------------------------------
// Asking for files
// ---------------------------------------------------------------------------

/// What is known of a file of the receiving side.
#[derive(Clone, Copy, Debug, PartialEq, Eq, Structural)]
pub struct FileStat {
    pub len: u64,
    pub mtime: i64,
}

/// Whether a file is out of date: it is not there, or its size or time of
/// modification is another.
pub open spec fn is_out_of_date(f: FileEntry, found: Option<FileStat>) -> bool {
    match found {
        None => true,
        Some(s) => s.len != f.size as u64 || s.mtime != f.modtime,
    }
}

/// Whether a file is asked for: a regular file that is out of date, or any
/// regular file where all are asked for.
pub open spec fn is_asked_for(f: FileEntry, found: Option<FileStat>, all: bool) -> bool {
    f.file_type() == FileType::Regular && (all || is_out_of_date(f, found))
}

/// What the generator writes for a file: its index, the layout of what is
/// there of it, and the checksums of its blocks.
pub open spec fn request_bytes(
    ndx: i32,
    data: Option<Seq<u8>>,
    ct: CsumType,
) -> Seq<u8> {
    match data {
        Some(d) => {
            let h = head_of(d.len() as int, sum_len_of(ct));
            enc_int(ndx) + sum_head_bytes(h) + sum_bufs_bytes(sums_of(d, h, ct, 0, false))
        },
        None => enc_int(ndx) + sum_head_bytes(no_head(sum_len_of(ct))),
    }
}

/// The counters after a file was asked for, with the checksums of what was sent
/// of it.
pub open spec fn request_counted(s: Stats, sent: Option<Seq<u8>>) -> Stats {
    Stats {
        num_files: (s.num_files + 1) as i32,
        total_written: match sent {
            Some(d) => (s.total_written + d.len()) as i64,
            None => s.total_written,
        },
        ..s
    }
}

/// Whether the blocks of a file can be numbered.
pub open spec fn can_be_summed(len: int) -> bool {
    block_count(len, crate::util::block_len(len)) <= i32::MAX && len + 0x20000 <= i64::MAX
}

/// The first position from `i` on that has a file of a kind.
pub open spec fn next_of(fs: Seq<FileEntry>, kind: FileType, i: int) -> Option<int>
    decreases fs.len() - i,
{
    if i >= fs.len() {
        None
    } else if fs[i].file_type() == kind {
        Some(i)
    } else {
        next_of(fs, kind, i + 1)
    }
}

pub(crate) proof fn lemma_next_of(fs: Seq<FileEntry>, kind: FileType, i: int)
    requires
        0 <= i,
    ensures
        next_of(fs, kind, i) matches Some(k) ==> i <= k < fs.len() && fs[k].file_type() == kind,
        next_of(fs, kind, i) matches Some(k) ==> forall|j: int|
            i <= j < k ==> #[trigger] fs[j].file_type() != kind,
        next_of(fs, kind, i) is None ==> forall|j: int|
            i <= j < fs.len() ==> #[trigger] fs[j].file_type() != kind,
    decreases fs.len() - i,
{
    if i < fs.len() && fs[i].file_type() != kind {
        lemma_next_of(fs, kind, i + 1);
    }
}

/// Finds the first file of a kind from a position on.
pub(crate) fn find_kind(list: &FileList, kind: FileType, from: usize) -> (res: Option<usize>)
    ensures
        match res {
            Some(k) => next_of(entries(list.files@), kind, from as int) == Some(k as int) && k
                < list.files@.len() <= usize::MAX,
            None => next_of(entries(list.files@), kind, from as int) == None::<int>,
        },
{
    let ghost fs = entries(list.files@);
    let mut i: usize = from;
    while i < list.files.len()
        invariant
            fs == entries(list.files@),
            next_of(fs, kind, i as int) == next_of(fs, kind, from as int),
        decreases list.files@.len() - i,
    {
        assert(fs[i as int] == list.files@[i as int]@);
        if list.files[i].file_type() == kind {
            assert(list.files.len() <= usize::MAX);
            return Some(i);
        }
        i = i + 1;
    }
    None
}

/// What a generator does next.
#[derive(Clone, Copy, Debug, PartialEq, Eq, Structural)]
pub enum GeneratorStep {
    /// Look at the file at this position of the list, and take what is found.
    Look(usize),
    /// Nothing more.
    Finished,
}

/// The generator of the receiving side: goes through the file list and asks
/// for the files that are out of date.
pub struct Generator {
    pub writer: Vec<u8>,
    pub stats: Stats,
}

impl Generator {
    /// A generator that has asked for nothing yet.
    pub fn new(writer: Vec<u8>) -> (g: Generator)
        ensures
            g.writer == writer,
            g.stats == no_stats(),
    {
        Generator { writer, stats: Stats::default() }
    }

    /// Whether a file is out of date, given what was found of it.
    pub fn needs_update(fi: &FileInfo, found: Option<FileStat>) -> (b: bool)
        ensures
            b == is_out_of_date(fi@, found),
    {
        match found {
            None => true,
            Some(s) => s.len != fi.size as u64 || s.mtime != fi.modtime,
        }
    }

    /// Whether the generator asks for a file: only regular files, and only
    /// those that are out of date unless all are asked for.
    pub fn wants(fi: &FileInfo, found: Option<FileStat>, whole_file: bool) -> (b: bool)
        ensures
            b == is_asked_for(fi@, found, whole_file),
            b == (fi@.file_type() == FileType::Regular && (whole_file || is_out_of_date(
                fi@,
                found,
            ))),
    {
        fi.is_regular() && (whole_file || Generator::needs_update(fi, found))
    }

    /// Goes on through the list from a position: says which file to look at
    /// next, or that there are no more requests.
    pub fn run(&mut self, flist: &FileList, from: usize) -> (step: GeneratorStep)
        ensures
            final(self).stats == old(self).stats,
            match next_of(entries(flist.files@), FileType::Regular, from as int) {
                Some(k) => step == GeneratorStep::Look(k as usize) && k < flist.files@.len()
                    && final(self).writer@ == old(self).writer@,
                None => step == GeneratorStep::Finished && final(self).writer@ == old(self).writer@
                    + enc_int(NDX_DONE),
            },
    {
        match find_kind(flist, FileType::Regular, from) {
            Some(k) => GeneratorStep::Look(k),
            None => {
                self.finish();
                GeneratorStep::Finished
            },
        }
    }

    /// Takes what was found of the file `i` of the list, and asks for the file
    /// if it is out of date, or if all files are asked for whole.  `data` is
    /// what is there of it; its checksums are sent unless the file is asked
    /// for whole.
    pub fn take(
        &mut self,
        flist: &FileList,
        i: usize,
        found: Option<FileStat>,
        data: Option<&[u8]>,
        csum_type: CsumType,
        whole_file: bool,
    ) -> (asked: bool)
        requires
            i < flist.files@.len(),
            flist.ndx_start + i <= i32::MAX,
            old(self).stats.num_files < i32::MAX,
            data matches Some(d) ==> can_be_summed(d@.len() as int) && old(self).stats.total_written + d@.len() <= i64::MAX,
        ensures
            asked == is_asked_for(flist.files@[i as int]@, found, whole_file),
            asked == (flist.files@[i as int]@.file_type() == FileType::Regular && (whole_file
                || is_out_of_date(flist.files@[i as int]@, found))),
            !asked ==> *final(self) == *old(self),
            asked ==> ({
                let sent = match data {
                    Some(d) if !whole_file => Some(d@),
                    _ => None,
                };
                &&& final(self).writer@ == old(self).writer@ + request_bytes(
                    (flist.ndx_start + i) as i32,
                    sent,
                    csum_type,
                )
                &&& final(self).stats == request_counted(old(self).stats, sent)
                &&& final(self).stats == (Stats {
                    num_files: (old(self).stats.num_files + 1) as i32,
                    total_written: match sent {
                        Some(d) => (old(self).stats.total_written + d.len()) as i64,
                        None => old(self).stats.total_written,
                    },
                    ..old(self).stats
                })
            }),
    {
        if !Generator::wants(&flist.files[i], found, whole_file) {
            return false;
        }
        if whole_file {
            self.request(flist, i, None, csum_type);
        } else {
            self.request(flist, i, data, csum_type);
        }
        true
    }

    /// Asks for the file `i` of the list.  `data` is what is there of it, where
    /// its checksums are to be sent.
    pub fn request(&mut self, flist: &FileList, i: usize, data: Option<&[u8]>, csum_type: CsumType)
        requires
            i < flist.files@.len(),
            flist.ndx_start + i <= i32::MAX,
            old(self).stats.num_files < i32::MAX,
            data matches Some(d) ==> can_be_summed(d@.len() as int) && old(self).stats.total_written + d@.len() <= i64::MAX,
        ensures
            final(self).writer@ == old(self).writer@ + request_bytes(
                (flist.ndx_start + i) as i32,
                match data {
                    Some(d) => Some(d@),
                    None => None,
                },
                csum_type,
            ),
            final(self).stats == request_counted(
                old(self).stats,
                match data {
                    Some(d) => Some(d@),
                    None => None,
                },
            ),
            final(self).stats == (Stats {
                num_files: (old(self).stats.num_files + 1) as i32,
                total_written: match data {
                    Some(d) => (old(self).stats.total_written + d@.len()) as i64,
                    None => old(self).stats.total_written,
                },
                ..old(self).stats
            }),
    {
        let ghost start = self.writer@;
        let ndx: i32 = (flist.ndx_start as i64 + i as i64) as i32;
        write_int(&mut self.writer, ndx);
        let sum_len: i32 = csum_sum_len(csum_type);
        match data {
            Some(d) => {
                proof {
                    lemma_head_fits(d@.len() as int, sum_len);
                }
                let head: SumHead = make_sum_head(d.len() as i64, sum_len);
                write_sum_head(&mut self.writer, &head);
                generate_and_write_checksums(&mut self.writer, d, &head, csum_type, 0, false);
                self.stats.total_written = self.stats.total_written + d.len() as i64;
                assert(self.writer@ =~= start + request_bytes(ndx, Some(d@), csum_type));
            },
            None => {
                let head: SumHead = SumHead { count: 0, blength: 0, remainder: 0, s2length: sum_len };
                write_sum_head(&mut self.writer, &head);
                assert(self.writer@ =~= start + request_bytes(ndx, None, csum_type));
            },
        }
        self.stats.num_files = self.stats.num_files + 1;
    }

    /// Says that there are no more requests.
    pub fn finish(&mut self)
        ensures
            final(self).writer@ == old(self).writer@ + enc_int(NDX_DONE),
            final(self).stats == old(self).stats,
    {
        write_int(&mut self.writer, NDX_DONE);
    }
}

} // verus!
