//! Finding the blocks of an older version in a file, and the block checksums
//! that are exchanged for it.

use std::collections::HashMap;
use vstd::prelude::*;

use crate::checksum::rolling::{rolling_keeps_track, rolling_sum, tracked_value, RollingChecksum};
use crate::checksum::strong::{md5_digest, seed_bytes, ChecksumType, StrongChecksum};
use crate::io::bytes::{bits32, put_bytes, signed32, ByteReader, WireError};
use crate::io::parse::{lemma_parse_bytes, lemma_parse_int, parse_bytes, parse_int, Parsed};
use crate::io::varint::{bits32_of, enc_int, read_int, signed32_of, write_int};
use crate::protocol::types::{block_sums, BlockSum, SumBuf, SumHead};

verus! {

broadcast use vstd::std_specs::hash::group_hash_axioms;

// ---------------------------------------------------------------------------
// Block checksums on the wire
// ---------------------------------------------------------------------------

/// A header on the wire.
pub open spec fn sum_head_bytes(h: SumHead) -> Seq<u8> {
    enc_int(h.count) + (enc_int(h.blength) + (enc_int(h.s2length) + enc_int(h.remainder)))
}

/// The header at the front of `buf`.
pub open spec fn parse_sum_head(buf: Seq<u8>) -> Parsed<SumHead> {
    match parse_int(buf) {
        Err(e) => Err(e),
        Ok((count, r1)) => match parse_int(r1) {
            Err(e) => Err(e),
            Ok((blength, r2)) => match parse_int(r2) {
                Err(e) => Err(e),
                Ok((s2length, r3)) => match parse_int(r3) {
                    Err(e) => Err(e),
                    Ok((remainder, r4)) => Ok(
                        (SumHead { count, blength, remainder, s2length }, r4),
                    ),
                },
            },
        },
    }
}

/// The checksums of one block on the wire.
pub open spec fn sum_buf_bytes(s: BlockSum) -> Seq<u8> {
    enc_int(signed32(s.sum1 as nat)) + s.sum2
}

/// The checksums of some blocks on the wire.
pub open spec fn sum_bufs_bytes(ss: Seq<BlockSum>) -> Seq<u8>
    decreases ss.len(),
{
    if ss.len() == 0 {
        Seq::empty()
    } else {
        sum_bufs_bytes(ss.drop_last()) + sum_buf_bytes(ss.last())
    }
}

/// How long block `i` is.
pub open spec fn block_len(h: SumHead, i: int) -> i32 {
    if i == h.count - 1 && h.remainder != 0 {
        h.remainder
    } else {
        h.blength
    }
}

/// Marks the end of a chain of blocks.
pub const NO_CHAIN: i32 = -1;

/// The received checksums of block `i`.
pub open spec fn received_sum(h: SumHead, i: int, sum1: i32, sum2: Seq<u8>) -> BlockSum {
    BlockSum {
        offset: (i * h.blength) as i64,
        len: block_len(h, i),
        sum1: bits32(sum1) as u32,
        chain: NO_CHAIN,
        flags: 0,
        sum2,
    }
}

/// The checksums of the blocks behind those read so far.
pub open spec fn parse_sums(buf: Seq<u8>, h: SumHead, so_far: Seq<BlockSum>) -> Parsed<Seq<BlockSum>>
    decreases h.count - so_far.len(),
{
    if so_far.len() >= h.count {
        Ok((so_far, buf))
    } else {
        match parse_int(buf) {
            Err(e) => Err(e),
            Ok((sum1, r1)) => match parse_bytes(r1, h.s2length as int) {
                Err(e) => Err(e),
                Ok((sum2, r2)) => parse_sums(
                    r2,
                    h,
                    so_far.push(received_sum(h, so_far.len() as int, sum1, sum2)),
                ),
            },
        }
    }
}

/// The checksums of all the blocks that a header announces.
pub open spec fn parse_sum_bufs(buf: Seq<u8>, h: SumHead) -> Parsed<Seq<BlockSum>> {
    if h.count < 0 || (h.count > 0 && h.s2length < 0) {
        Err(WireError::NegativeLength)
    } else {
        parse_sums(buf, h, Seq::empty())
    }
}

/// Reads a header.
pub fn read_sum_head(r: &mut ByteReader) -> (res: Result<SumHead, WireError>)
    ensures
        match res {
            Ok(h) => parse_sum_head(old(r)@) == Ok::<(SumHead, Seq<u8>), WireError>((h, final(r)@)),
            Err(e) => parse_sum_head(old(r)@) == Err::<(SumHead, Seq<u8>), WireError>(e) && final(r)@ == old(r)@,
        },
        forall|q: nat| #[trigger] final(r).at(q) == old(r).at(q),
{
    proof {
        reveal(parse_int);
    }
    let start: usize = r.position();
    let count: i32 = match read_int(r) {
        Err(e) => return Err(e),
        Ok(v) => v,
    };
    let blength: i32 = match read_int(r) {
        Err(e) => {
            r.seek(start);
            return Err(e);
        },
        Ok(v) => v,
    };
    let s2length: i32 = match read_int(r) {
        Err(e) => {
            r.seek(start);
            return Err(e);
        },
        Ok(v) => v,
    };
    let remainder: i32 = match read_int(r) {
        Err(e) => {
            r.seek(start);
            return Err(e);
        },
        Ok(v) => v,
    };
    Ok(SumHead { count, blength, remainder, s2length })
}

/// Writes a header.
pub fn write_sum_head(w: &mut Vec<u8>, head: &SumHead)
    ensures
        final(w)@ == old(w)@ + sum_head_bytes(*head),
{
    write_int(w, head.count);
    write_int(w, head.blength);
    write_int(w, head.s2length);
    write_int(w, head.remainder);
    assert(w@ =~= old(w)@ + sum_head_bytes(*head));
}

/// Reads the checksums of all the blocks that a header announces.
pub fn read_sum_bufs(r: &mut ByteReader, head: &SumHead) -> (res: Result<Vec<SumBuf>, WireError>)
    ensures
        match res {
            Ok(v) => parse_sum_bufs(old(r)@, *head) == Ok::<(Seq<BlockSum>, Seq<u8>), WireError>(
                (block_sums(v@), final(r)@),
            ),
            Err(e) => parse_sum_bufs(old(r)@, *head) == Err::<(Seq<BlockSum>, Seq<u8>), WireError>(
                e,
            ) && final(r)@ == old(r)@,
        },
        forall|q: nat| #[trigger] final(r).at(q) == old(r).at(q),
{
    if head.count < 0 || (head.count > 0 && head.s2length < 0) {
        return Err(WireError::NegativeLength);
    }
    let start: usize = r.position();
    let mut sums: Vec<SumBuf> = Vec::new();
    let mut i: i32 = 0;
    let mut offset: i64 = 0;
    assert(block_sums(sums@) =~= Seq::<BlockSum>::empty());
    while i < head.count
        invariant
            0 <= i <= head.count,
            head.count > 0 ==> head.s2length >= 0,
            sums@.len() == i,
            offset == i * head.blength,
            old(r).at(start as nat) == old(r)@,
            forall|q: nat| #[trigger] r.at(q) == old(r).at(q),
            parse_sums(r@, *head, block_sums(sums@)) == parse_sums(old(r)@, *head, Seq::empty()),
        decreases head.count - i,
    {
        proof {
            reveal(parse_int);
            reveal(parse_bytes);
        }
        let sum1: i32 = match read_int(r) {
            Err(e) => {
                r.seek(start);
                return Err(e);
            },
            Ok(v) => v,
        };
        let sum2: Vec<u8> = match r.take_bytes(head.s2length as usize) {
            Err(e) => {
                r.seek(start);
                return Err(e);
            },
            Ok(b) => b,
        };
        let len: i32 = if i == head.count - 1 && head.remainder != 0 {
            head.remainder
        } else {
            head.blength
        };
        let ghost before = block_sums(sums@);
        let s: SumBuf = SumBuf { offset, len, sum1: bits32_of(sum1), chain: NO_CHAIN, flags: 0, sum2 };
        proof {
            lemma_offset(i as int, head.blength as int);
        }
        assert(s@ == received_sum(*head, i as int, sum1, sum2@));
        sums.push(s);
        assert(block_sums(sums@) =~= before.push(s@));
        offset = offset + head.blength as i64;
        i = i + 1;
    }
    Ok(sums)
}

proof fn lemma_offset(i: int, b: int)
    requires
        0 <= i < i32::MAX,
        i32::MIN <= b <= i32::MAX,
    ensures
        -0x4000_0000_0000_0000 <= i * b <= 0x4000_0000_0000_0000,
        (i + 1) * b == i * b + b,
{
    assert((i + 1) * b == i * b + b) by (nonlinear_arith);
    assert(-0x4000_0000_0000_0000 <= i * b <= 0x4000_0000_0000_0000) by (nonlinear_arith)
        requires
            0 <= i < 0x7fff_ffff,
            -0x8000_0000 <= b <= 0x7fff_ffff,
    ;
}

/// Writes the checksums of some blocks.
pub fn write_sum_bufs(w: &mut Vec<u8>, sums: &[SumBuf])
    ensures
        final(w)@ == old(w)@ + sum_bufs_bytes(block_sums(sums@)),
{
    let ghost start = w@;
    let ghost all = block_sums(sums@);
    let mut i: usize = 0;
    assert(all.take(0) =~= Seq::<BlockSum>::empty());
    assert(w@ =~= start + sum_bufs_bytes(all.take(0)));
    while i < sums.len()
        invariant
            i <= sums@.len(),
            all == block_sums(sums@),
            w@ == start + sum_bufs_bytes(all.take(i as int)),
        decreases sums@.len() - i,
    {
        write_int(w, signed32_of(sums[i].sum1));
        put_bytes(w, sums[i].sum2.as_slice());
        proof {
            let next = all.take(i + 1);
            assert(next.drop_last() =~= all.take(i as int));
            assert(next.last() == sums@[i as int]@);
        }
        i = i + 1;
        assert(w@ =~= start + sum_bufs_bytes(all.take(i as int)));
    }
    assert(all.take(i as int) =~= all);
}

// ---------------------------------------------------------------------------
// The table of blocks
// ---------------------------------------------------------------------------

/// The positions among the first blocks whose rolling checksum is `sum1`.
pub open spec fn blocks_with(ss: Seq<BlockSum>, sum1: u32) -> Seq<int>
    decreases ss.len(),
{
    if ss.len() == 0 {
        Seq::empty()
    } else {
        let before = blocks_with(ss.drop_last(), sum1);
        if ss.last().sum1 == sum1 {
            before.push(ss.len() - 1)
        } else {
            before
        }
    }
}

/// Whether a list of candidates names the blocks `blocks` of `ss` in order,
/// each with its strong checksum.
pub open spec fn names_blocks(list: Seq<(usize, Vec<u8>)>, blocks: Seq<int>, ss: Seq<BlockSum>) -> bool {
    &&& list.len() == blocks.len()
    &&& forall|k: int|
        0 <= k < list.len() ==> {
            &&& (#[trigger] list[k]).0 == blocks[k]
            &&& 0 <= blocks[k] < ss.len()
            &&& list[k].1@ == ss[blocks[k]].sum2
        }
}

/// The block checksums of the older version, to be looked up by their
/// rolling checksum.
#[derive(Debug)]
pub struct BlockHashTable {
    table: HashMap<u32, Vec<(usize, Vec<u8>)>>,
    head: SumHead,
    sums: Vec<SumBuf>,
}

spec fn table_holds(table: Map<u32, Vec<(usize, Vec<u8>)>>, ss: Seq<BlockSum>) -> bool {
    &&& forall|k: u32| #[trigger] table.contains_key(k) <==> blocks_with(ss, k).len() > 0
    &&& forall|k: u32| #[trigger] table.contains_key(k) ==> names_blocks(
        table[k]@,
        blocks_with(ss, k),
        ss,
    )
}

impl BlockHashTable {
    #[verifier::type_invariant]
    spec fn wf(self) -> bool {
        table_holds(self.table@, block_sums(self.sums@))
    }

    /// The header that the table was built with.
    pub closed spec fn header(&self) -> SumHead {
        self.head
    }

    /// The block checksums that the table was built with.
    pub closed spec fn blocks(&self) -> Seq<BlockSum> {
        block_sums(self.sums@)
    }

    /// A table of the blocks `sums`.
    pub fn build(head: &SumHead, sums: &[SumBuf]) -> (t: BlockHashTable)
        ensures
            t.header() == *head,
            t.blocks() == block_sums(sums@),
    {
        let mut table: HashMap<u32, Vec<(usize, Vec<u8>)>> = HashMap::new();
        let mut copies: Vec<SumBuf> = Vec::new();
        let ghost all = block_sums(sums@);
        let mut i: usize = 0;
        assert(all.take(0) =~= Seq::<BlockSum>::empty());
        while i < sums.len()
            invariant
                i <= sums@.len(),
                all == block_sums(sums@),
                block_sums(copies@) == all.take(i as int),
                table_holds(table@, all.take(i as int)),
            decreases sums@.len() - i,
        {
            let key: u32 = sums[i].sum1;
            let ghost before = all.take(i as int);
            let ghost next = all.take(i + 1);
            let ghost old_table = table@;
            let mut list: Vec<(usize, Vec<u8>)> = match table.remove(&key) {
                Some(v) => v,
                None => Vec::new(),
            };
            let ghost old_list = list@;
            let copy: SumBuf = sums[i].clone();
            let sum2: Vec<u8> = sums[i].clone().sum2;
            list.push((i, sum2));
            proof {
                assert(next.drop_last() =~= before);
                assert(next.last() == sums@[i as int]@);
                assert(names_blocks(old_list, blocks_with(before, key), before)) by {
                    if !old_table.contains_key(key) {
                        assert(old_list =~= Seq::<(usize, Vec<u8>)>::empty());
                    }
                }
                assert(blocks_with(next, key) =~= blocks_with(before, key).push(i as int));
                assert(names_blocks(list@, blocks_with(next, key), next)) by {
                    assert forall|k: int| 0 <= k < list@.len() implies {
                        &&& (#[trigger] list@[k]).0 == blocks_with(next, key)[k]
                        &&& 0 <= blocks_with(next, key)[k] < next.len()
                        &&& list@[k].1@ == next[blocks_with(next, key)[k]].sum2
                    } by {
                        if k < old_list.len() {
                            assert(list@[k] == old_list[k]);
                        }
                    }
                }
            }
            table.insert(key, list);
            proof {
                assert forall|k: u32| #[trigger] table@.contains_key(k) <==> blocks_with(
                    next,
                    k,
                ).len() > 0 by {
                    if k != key {
                        assert(table@.contains_key(k) == old_table.contains_key(k));
                        assert(blocks_with(next, k) == blocks_with(before, k));
                    }
                }
                assert forall|k: u32| #[trigger] table@.contains_key(k) implies names_blocks(
                    table@[k]@,
                    blocks_with(next, k),
                    next,
                ) by {
                    if k != key {
                        assert(old_table.contains_key(k));
                        assert(table@[k] == old_table[k]);
                        assert(names_blocks(old_table[k]@, blocks_with(before, k), before));
                    }
                }
            }
            let ghost had = block_sums(copies@);
            copies.push(copy);
            assert(block_sums(copies@) =~= had.push(sums@[i as int]@));
            assert(next =~= before.push(sums@[i as int]@));
            i = i + 1;
        }
        assert(all.take(i as int) =~= all);
        BlockHashTable { table, head: *head, sums: copies }
    }

    /// The blocks whose rolling checksum is `sum1`, lowest first, each with
    /// its strong checksum.
    pub fn find_rolling(&self, sum1: u32) -> (res: Option<&Vec<(usize, Vec<u8>)>>)
        ensures
            match res {
                Some(list) => blocks_with(self.blocks(), sum1).len() > 0 && names_blocks(
                    list@,
                    blocks_with(self.blocks(), sum1),
                    self.blocks(),
                ),
                None => blocks_with(self.blocks(), sum1).len() == 0,
            },
    {
        proof {
            use_type_invariant(self);
        }
        self.table.get(&sum1)
    }

    /// The header that the table was built with.
    pub fn get_head(&self) -> (h: SumHead)
        ensures
            h == self.header(),
    {
        self.head
    }

    fn len_of(&self, i: usize) -> (n: i32)
        requires
            i < self.blocks().len(),
        ensures
            n == self.blocks()[i as int].len,
    {
        self.sums[i].len
    }
}

// ---------------------------------------------------------------------------
// Matching
// ---------------------------------------------------------------------------

/// One step of describing a file by its older version.
#[derive(Debug, Clone, Copy, PartialEq, Eq, Structural)]
pub enum DeltaOp {
    /// Bytes of the file that are sent as they are.
    Literal { offset: u64, len: u32 },
    /// A block of the older version that stands in the file at `offset`.
    Match { block_idx: usize, offset: u64 },
}

/// Whether a digest agrees with a stored strong checksum in its first `n`
/// bytes, or in as many as are stored.
pub open spec fn sums_agree(digest: Seq<u8>, stored: Seq<u8>, n: nat) -> bool {
    let k = if n < stored.len() {
        n
    } else {
        stored.len()
    };
    k <= digest.len() && digest.take(k as int) == stored.take(k as int)
}

/// Whether a window of the file passes for a block of the older version.
pub open spec fn block_hit(s: BlockSum, window: Seq<u8>, strong_len: nat, seed: u32) -> bool {
    &&& s.sum1 == rolling_sum(window)
    &&& s.len == window.len()
    &&& strong_len > 0 ==> sums_agree(md5_digest(window + seed_bytes(seed)), s.sum2, strong_len)
}

/// The first block from `k` on that a window passes for.
pub open spec fn first_hit(
    ss: Seq<BlockSum>,
    window: Seq<u8>,
    strong_len: nat,
    seed: u32,
    k: nat,
) -> Option<nat>
    decreases ss.len() - k,
{
    if k >= ss.len() {
        None
    } else if block_hit(ss[k as int], window, strong_len, seed) {
        Some(k)
    } else {
        first_hit(ss, window, strong_len, seed, k + 1)
    }
}

/// The literal for the bytes from `from` to `to`; none where there are none.
pub open spec fn literal_op(from: int, to: int) -> Seq<DeltaOp> {
    if from < to {
        seq![DeltaOp::Literal { offset: from as u64, len: (to - from) as u32 }]
    } else {
        Seq::empty()
    }
}

/// How the rest of the file is described: `from` is where the unmatched bytes
/// start, `offset` where the next window does.  The first window that passes
/// for a block is taken, and matching goes on behind it.
pub open spec fn delta_from(
    data: Seq<u8>,
    ss: Seq<BlockSum>,
    blength: nat,
    strong_len: nat,
    seed: u32,
    from: int,
    offset: int,
) -> Seq<DeltaOp>
    decreases data.len() - offset,
{
    if blength == 0 || offset < 0 || offset + blength > data.len() {
        literal_op(from, data.len() as int)
    } else {
        match first_hit(ss, data.subrange(offset, offset + blength), strong_len, seed, 0) {
            Some(k) => literal_op(from, offset) + seq![
                DeltaOp::Match { block_idx: k as usize, offset: offset as u64 },
            ] + delta_from(
                data,
                ss,
                blength,
                strong_len,
                seed,
                offset + blength,
                offset + blength,
            ),
            None => delta_from(data, ss, blength, strong_len, seed, from, offset + 1),
        }
    }
}

/// How a file is described by the blocks of its older version.
pub open spec fn delta_of(
    data: Seq<u8>,
    head: SumHead,
    ss: Seq<BlockSum>,
    strong_len: nat,
    seed: u32,
) -> Seq<DeltaOp> {
    let blength = if head.blength > 0 {
        head.blength as nat
    } else {
        0
    };
    delta_from(data, ss, blength, strong_len, seed, 0, 0)
}

proof fn lemma_blocks_with(ss: Seq<BlockSum>, sum1: u32)
    ensures
        forall|k: int|
            0 <= k < blocks_with(ss, sum1).len() ==> {
                &&& 0 <= #[trigger] blocks_with(ss, sum1)[k] < ss.len()
                &&& ss[blocks_with(ss, sum1)[k]].sum1 == sum1
            },
        forall|a: int, b: int|
            0 <= a < b < blocks_with(ss, sum1).len() ==> #[trigger] blocks_with(ss, sum1)[a]
                < #[trigger] blocks_with(ss, sum1)[b],
        forall|i: int|
            0 <= i < ss.len() && (#[trigger] ss[i]).sum1 == sum1 ==> blocks_with(
                ss,
                sum1,
            ).contains(i),
    decreases ss.len(),
{
    if ss.len() > 0 {
        let t = ss.drop_last();
        let bt = blocks_with(t, sum1);
        let bs = blocks_with(ss, sum1);
        lemma_blocks_with(t, sum1);
        assert forall|k: int| 0 <= k < bs.len() implies {
            &&& 0 <= #[trigger] bs[k] < ss.len()
            &&& ss[bs[k]].sum1 == sum1
        } by {
            if k < bt.len() {
                assert(bs[k] == bt[k]);
                assert(t[bt[k]] == ss[bt[k]]);
            }
        }
        assert forall|a: int, b: int| 0 <= a < b < bs.len() implies #[trigger] bs[a]
            < #[trigger] bs[b] by {
            assert(bs[a] == bt[a]);
            if b < bt.len() {
                assert(bs[b] == bt[b]);
            }
        }
        assert forall|i: int| 0 <= i < ss.len() && (#[trigger] ss[i]).sum1 == sum1 implies bs.contains(
            i,
        ) by {
            if i < t.len() {
                assert(t[i].sum1 == sum1);
                let k = choose|k: int| 0 <= k < bt.len() && bt[k] == i;
                assert(bs[k] == i);
            } else {
                assert(bs[bs.len() - 1] == i);
            }
        }
    }
}

proof fn lemma_first_hit(
    ss: Seq<BlockSum>,
    window: Seq<u8>,
    strong_len: nat,
    seed: u32,
    k: nat,
    res: Option<nat>,
)
    requires
        match res {
            Some(i) => k <= i < ss.len() && block_hit(ss[i as int], window, strong_len, seed)
                && forall|j: int|
                k <= j < i ==> !block_hit(#[trigger] ss[j], window, strong_len, seed),
            None => forall|j: int|
                k <= j < ss.len() ==> !block_hit(#[trigger] ss[j], window, strong_len, seed),
        },
    ensures
        first_hit(ss, window, strong_len, seed, k) == res,
    decreases ss.len() - k,
{
    if k < ss.len() && !block_hit(ss[k as int], window, strong_len, seed) {
        lemma_first_hit(ss, window, strong_len, seed, k + 1, res);
    }
}

/// Whether a digest agrees with a stored strong checksum.
fn sums_agree_of(digest: &[u8], stored: &[u8], n: usize) -> (b: bool)
    ensures
        b == sums_agree(digest@, stored@, n as nat),
{
    let k: usize = if n < stored.len() {
        n
    } else {
        stored.len()
    };
    if k > digest.len() {
        return false;
    }
    let mut i: usize = 0;
    while i < k
        invariant
            i <= k <= digest@.len(),
            k as nat == if (n as nat) < stored@.len() {
                n as nat
            } else {
                stored@.len()
            },
            digest@.take(i as int) == stored@.take(i as int),
        decreases k - i,
    {
        if digest[i] != stored[i] {
            assert(digest@.take(k as int)[i as int] != stored@.take(k as int)[i as int]);
            return false;
        }
        assert(digest@.take(i + 1) =~= digest@.take(i as int).push(digest@[i as int]));
        assert(stored@.take(i + 1) =~= stored@.take(i as int).push(stored@[i as int]));
        i = i + 1;
    }
    true
}

/// The first block that a window passes for, given its rolling checksum.
fn find_hit(table: &BlockHashTable, window: &[u8], sum: u32, strong_len: usize, seed: u32) -> (res:
    Option<usize>)
    requires
        sum == rolling_sum(window@),
    ensures
        match res {
            Some(k) => first_hit(table.blocks(), window@, strong_len as nat, seed, 0) == Some(
                k as nat,
            ),
            None => first_hit(table.blocks(), window@, strong_len as nat, seed, 0) == None::<nat>,
        },
{
    let ghost ss = table.blocks();
    proof {
        lemma_blocks_with(ss, sum);
    }
    let list: &Vec<(usize, Vec<u8>)> = match table.find_rolling(sum) {
        Some(list) => list,
        None => {
            proof {
                assert forall|j: int| 0 <= j < ss.len() implies !block_hit(
                    #[trigger] ss[j],
                    window@,
                    strong_len as nat,
                    seed,
                ) by {
                    if ss[j].sum1 == sum {
                        assert(blocks_with(ss, sum).contains(j));
                    }
                }
                lemma_first_hit(ss, window@, strong_len as nat, seed, 0, None);
            }
            return None;
        },
    };
    let digest: Vec<u8> = if strong_len > 0 {
        StrongChecksum::compute(window, ChecksumType::Md5, seed, false)
    } else {
        Vec::new()
    };
    let ghost bs = blocks_with(ss, sum);
    let mut i: usize = 0;
    while i < list.len()
        invariant
            i <= list@.len(),
            ss == table.blocks(),
            bs == blocks_with(ss, sum),
            sum == rolling_sum(window@),
            names_blocks(list@, bs, ss),
            strong_len > 0 ==> digest@ == md5_digest(window@ + seed_bytes(seed)),
            forall|j: int|
                0 <= j < i ==> !block_hit(
                    ss[#[trigger] bs[j]],
                    window@,
                    strong_len as nat,
                    seed,
                ),
            forall|k: int| 0 <= k < bs.len() ==> ss[#[trigger] bs[k]].sum1 == sum,
            forall|a: int, b: int|
                0 <= a < b < bs.len() ==> #[trigger] bs[a] < #[trigger] bs[b],
            forall|j: int| 0 <= j < ss.len() && (#[trigger] ss[j]).sum1 == sum ==> bs.contains(j),
        decreases list@.len() - i,
    {
        let k: usize = list[i].0;
        assert(list@[i as int].0 == bs[i as int]);
        let len: i32 = table.len_of(k);
        let fits: bool = len >= 0 && len as usize == window.len();
        let agrees: bool = strong_len == 0 || sums_agree_of(
            digest.as_slice(),
            list[i].1.as_slice(),
            strong_len,
        );
        if fits && agrees {
            proof {
                assert forall|j: int| 0 <= j < k implies !block_hit(
                    #[trigger] ss[j],
                    window@,
                    strong_len as nat,
                    seed,
                ) by {
                    if ss[j].sum1 == sum {
                        let a = choose|a: int| 0 <= a < bs.len() && bs[a] == j;
                        assert(bs[a] == j);
                        if a >= i {
                            if a > i {
                                assert(bs[i as int] < bs[a]);
                            }
                        }
                    }
                }
                lemma_first_hit(ss, window@, strong_len as nat, seed, 0, Some(k as nat));
            }
            return Some(k);
        }
        i = i + 1;
    }
    proof {
        assert forall|j: int| 0 <= j < ss.len() implies !block_hit(
            #[trigger] ss[j],
            window@,
            strong_len as nat,
            seed,
        ) by {
            if ss[j].sum1 == sum {
                let a = choose|a: int| 0 <= a < bs.len() && bs[a] == j;
                assert(bs[a] == j);
            }
        }
        lemma_first_hit(ss, window@, strong_len as nat, seed, 0, None);
    }
    None
}

fn push_literal(ops: &mut Vec<DeltaOp>, from: usize, to: usize)
    requires
        from <= to,
    ensures
        final(ops)@ == old(ops)@ + literal_op(from as int, to as int),
{
    if from < to {
        ops.push(DeltaOp::Literal { offset: from as u64, len: (to - from) as u32 });
    }
    assert(ops@ =~= old(ops)@ + literal_op(from as int, to as int));
}

/// Describes `data` by the blocks of its older version, without a seed.
pub fn find_matches(data: &[u8], table: &BlockHashTable, strong_len: usize) -> (ops: Vec<DeltaOp>)
    ensures
        ops@ == delta_of(data@, table.header(), table.blocks(), strong_len as nat, 0),
{
    find_matches_seeded(data, table, strong_len, 0)
}

/// The bytes of `data` from `from` to `to`.
fn slice_of(data: &[u8], from: usize, to: usize) -> (s: &[u8])
    requires
        from <= to <= data@.len(),
    ensures
        s@ == data@.subrange(from as int, to as int),
{
    let s: &[u8] = data.split_at(to).0.split_at(from).1;
    assert(s@ =~= data@.subrange(from as int, to as int));
    s
}

/// Describes `data` by the blocks of its older version, whose strong checksums
/// were computed with `seed`.
pub fn find_matches_seeded(data: &[u8], table: &BlockHashTable, strong_len: usize, seed: u32) -> (ops:
    Vec<DeltaOp>)
    ensures
        ops@ == delta_of(data@, table.header(), table.blocks(), strong_len as nat, seed),
{
    let mut ops: Vec<DeltaOp> = Vec::new();
    let head: SumHead = table.get_head();
    let n: usize = data.len();
    if head.blength <= 0 || (head.blength as usize) > n {
        push_literal(&mut ops, 0, n);
        assert(ops@ =~= literal_op(0, n as int));
        return ops;
    }
    let blength: usize = head.blength as usize;
    let ghost ss = table.blocks();
    let ghost want = delta_from(data@, ss, blength as nat, strong_len as nat, seed, 0, 0);
    let mut from: usize = 0;
    let mut offset: usize = 0;
    let mut rc: RollingChecksum = RollingChecksum::new();
    rc.init(slice_of(data, 0, blength));
    assert(ops@ + want =~= want);
    while offset <= n - blength
        invariant
            0 < blength <= n == data@.len(),
            blength <= i32::MAX,
            from <= offset <= n,
            ss == table.blocks(),
            offset <= n - blength ==> rc.tracks(data@.subrange(offset as int, offset + blength)),
            ops@ + delta_from(
                data@,
                ss,
                blength as nat,
                strong_len as nat,
                seed,
                from as int,
                offset as int,
            ) == want,
        decreases n - offset,
    {
        let window: &[u8] = slice_of(data, offset, offset + blength);
        proof {
            tracked_value(rc, window@);
        }
        let ghost before = ops@;
        match find_hit(table, window, rc.value(), strong_len, seed) {
            Some(k) => {
                let ghost tail = delta_from(
                    data@,
                    ss,
                    blength as nat,
                    strong_len as nat,
                    seed,
                    offset + blength,
                    offset + blength,
                );
                push_literal(&mut ops, from, offset);
                ops.push(DeltaOp::Match { block_idx: k, offset: offset as u64 });
                assert(ops@ + tail =~= before + (literal_op(from as int, offset as int) + seq![
                    DeltaOp::Match { block_idx: k, offset: offset as u64 },
                ] + tail));
                offset = offset + blength;
                from = offset;
                if offset <= n - blength {
                    rc.init(slice_of(data, offset, offset + blength));
                }
            },
            None => {
                if offset < n - blength {
                    let out: u8 = data[offset];
                    let come: u8 = data[offset + blength];
                    proof {
                        rolling_keeps_track(rc, window@, come);
                        assert(window@.skip(1).push(come) =~= data@.subrange(
                            offset + 1,
                            offset + 1 + blength,
                        ));
                        assert(window@[0] == out);
                    }
                    rc.roll(out, come);
                }
                offset = offset + 1;
            },
        }
    }
    let ghost before = ops@;
    push_literal(&mut ops, from, n);
    assert(ops@ =~= before + literal_op(from as int, n as int));
    ops
}

// ---------------------------------------------------------------------------
// Laws
// ---------------------------------------------------------------------------

/// A header that was written is read back.
pub proof fn sum_head_round_trip(h: SumHead, rest: Seq<u8>)
    ensures
        parse_sum_head(sum_head_bytes(h) + rest) == Ok::<(SumHead, Seq<u8>), WireError>((h, rest)),
{
    let a = enc_int(h.count);
    let b = enc_int(h.blength);
    let c = enc_int(h.s2length);
    let d = enc_int(h.remainder);
    assert(sum_head_bytes(h) + rest =~= a + (b + (c + (d + rest))));
    lemma_parse_int(h.count, b + (c + (d + rest)));
    lemma_parse_int(h.blength, c + (d + rest));
    lemma_parse_int(h.s2length, d + rest);
    lemma_parse_int(h.remainder, rest);
}

proof fn lemma_sum_bufs_front(ss: Seq<BlockSum>)
    requires
        ss.len() > 0,
    ensures
        sum_bufs_bytes(ss) == sum_buf_bytes(ss[0]) + sum_bufs_bytes(ss.skip(1)),
    decreases ss.len(),
{
    let t = ss.drop_last();
    if t.len() > 0 {
        lemma_sum_bufs_front(t);
        assert(t.skip(1) =~= ss.skip(1).drop_last());
        assert(sum_bufs_bytes(ss) =~= sum_buf_bytes(ss[0]) + sum_bufs_bytes(ss.skip(1)));
    } else {
        assert(ss.skip(1) =~= Seq::<BlockSum>::empty());
        assert(t =~= Seq::<BlockSum>::empty());
        assert(sum_bufs_bytes(ss) =~= sum_buf_bytes(ss[0]) + sum_bufs_bytes(ss.skip(1)));
    }
}

/// The received form of a block's checksums: its place and length follow from
/// the header.
pub open spec fn placed_sum(h: SumHead, i: int, s: BlockSum) -> BlockSum {
    received_sum(h, i, signed32(s.sum1 as nat), s.sum2)
}

proof fn lemma_sums_travel(ss: Seq<BlockSum>, h: SumHead, so_far: Seq<BlockSum>, rest: Seq<u8>)
    requires
        0 <= h.s2length,
        h.count == so_far.len() + ss.len(),
        forall|i: int| 0 <= i < ss.len() ==> (#[trigger] ss[i]).sum2.len() == h.s2length,
    ensures
        parse_sums(sum_bufs_bytes(ss) + rest, h, so_far) == Ok::<
            (Seq<BlockSum>, Seq<u8>),
            WireError,
        >((so_far + Seq::new(ss.len(), |i: int| placed_sum(h, so_far.len() + i, ss[i])), rest)),
    decreases ss.len(),
{
    let placed = Seq::new(ss.len(), |i: int| placed_sum(h, so_far.len() + i, ss[i]));
    if ss.len() == 0 {
        assert(sum_bufs_bytes(ss) + rest =~= rest);
        assert(so_far + placed =~= so_far);
    } else {
        let s = ss[0];
        let more = ss.skip(1);
        let x = signed32(s.sum1 as nat);
        let tail = sum_bufs_bytes(more) + rest;
        lemma_sum_bufs_front(ss);
        assert(sum_bufs_bytes(ss) + rest =~= enc_int(x) + (s.sum2 + tail));
        lemma_parse_int(x, s.sum2 + tail);
        lemma_parse_bytes(s.sum2, tail);
        let next = so_far.push(placed_sum(h, so_far.len() as int, s));
        lemma_sums_travel(more, h, next, rest);
        assert(next + Seq::new(more.len(), |i: int| placed_sum(h, next.len() + i, more[i]))
            =~= so_far + placed);
    }
}

/// Block checksums that were written are read back, each with the place and
/// length that the header gives it.
pub proof fn sum_bufs_round_trip(ss: Seq<BlockSum>, h: SumHead, rest: Seq<u8>)
    requires
        0 <= h.s2length,
        h.count == ss.len(),
        forall|i: int| 0 <= i < ss.len() ==> (#[trigger] ss[i]).sum2.len() == h.s2length,
    ensures
        parse_sum_bufs(sum_bufs_bytes(ss) + rest, h) == Ok::<(Seq<BlockSum>, Seq<u8>), WireError>(
            (Seq::new(ss.len(), |i: int| placed_sum(h, i, ss[i])), rest),
        ),
        forall|i: int|
            0 <= i < ss.len() ==> {
                &&& placed_sum(h, i, #[trigger] ss[i]).sum1 == ss[i].sum1
                &&& placed_sum(h, i, ss[i]).sum2 == ss[i].sum2
            },
{
    lemma_sums_travel(ss, h, Seq::empty(), rest);
    let none = Seq::<BlockSum>::empty();
    assert(none + Seq::new(ss.len(), |i: int| placed_sum(h, none.len() + i, ss[i])) =~= Seq::new(
        ss.len(),
        |i: int| placed_sum(h, i, ss[i]),
    ));
    assert forall|i: int| 0 <= i < ss.len() implies {
        &&& placed_sum(h, i, #[trigger] ss[i]).sum1 == ss[i].sum1
        &&& placed_sum(h, i, ss[i]).sum2 == ss[i].sum2
    } by {
        let x = signed32(ss[i].sum1 as nat);
        assert(bits32(x) == ss[i].sum1 as nat);
    }
}

/// Where the bytes of a step start in the file.
pub open spec fn op_start(op: DeltaOp) -> int {
    match op {
        DeltaOp::Literal { offset, len } => offset as int,
        DeltaOp::Match { block_idx, offset } => offset as int,
    }
}

/// How many bytes of the file a step stands for.
pub open spec fn op_len(op: DeltaOp, blength: int) -> int {
    match op {
        DeltaOp::Literal { offset, len } => len as int,
        DeltaOp::Match { block_idx, offset } => blength,
    }
}

/// Whether the steps stand one behind the other from `from` to `to`, none of
/// them empty.
pub open spec fn ops_cover(ops: Seq<DeltaOp>, blength: int, from: int, to: int) -> bool
    decreases ops.len(),
{
    if ops.len() == 0 {
        from == to
    } else {
        &&& op_start(ops[0]) == from
        &&& op_len(ops[0], blength) > 0
        &&& ops_cover(ops.skip(1), blength, from + op_len(ops[0], blength), to)
    }
}

proof fn lemma_cover_concat(a: Seq<DeltaOp>, b: Seq<DeltaOp>, blength: int, x: int, y: int, z: int)
    requires
        ops_cover(a, blength, x, y),
        ops_cover(b, blength, y, z),
    ensures
        ops_cover(a + b, blength, x, z),
    decreases a.len(),
{
    if a.len() == 0 {
        assert(a + b =~= b);
    } else {
        lemma_cover_concat(a.skip(1), b, blength, x + op_len(a[0], blength), y, z);
        assert((a + b).skip(1) =~= a.skip(1) + b);
        assert((a + b)[0] == a[0]);
    }
}

proof fn lemma_cover_literal(blength: int, from: int, to: int)
    requires
        0 <= from <= to <= u32::MAX,
    ensures
        ops_cover(literal_op(from, to), blength, from, to),
{
    let ops = literal_op(from, to);
    reveal_with_fuel(ops_cover, 2);
    if from < to {
        assert(ops.skip(1) =~= Seq::<DeltaOp>::empty());
    }
}

pub(crate) proof fn lemma_first_hit_sound(ss: Seq<BlockSum>, window: Seq<u8>, strong_len: nat, seed: u32, k: nat)
    ensures
        match first_hit(ss, window, strong_len, seed, k) {
            Some(i) => k <= i < ss.len() && block_hit(ss[i as int], window, strong_len, seed),
            None => true,
        },
    decreases ss.len() - k,
{
    if k < ss.len() && !block_hit(ss[k as int], window, strong_len, seed) {
        lemma_first_hit_sound(ss, window, strong_len, seed, k + 1);
    }
}

/// Whether every match among the steps is a block whose checksums the window
/// of the file has.
pub open spec fn ops_hit(
    ops: Seq<DeltaOp>,
    data: Seq<u8>,
    ss: Seq<BlockSum>,
    blength: int,
    strong_len: nat,
    seed: u32,
) -> bool {
    forall|i: int|
        0 <= i < ops.len() ==> match #[trigger] ops[i] {
            DeltaOp::Match { block_idx, offset } => block_idx < ss.len() && block_hit(
                ss[block_idx as int],
                data.subrange(offset as int, offset + blength),
                strong_len,
                seed,
            ),
            DeltaOp::Literal { offset, len } => true,
        }
}

proof fn lemma_delta_from(
    data: Seq<u8>,
    ss: Seq<BlockSum>,
    blength: nat,
    strong_len: nat,
    seed: u32,
    from: int,
    offset: int,
)
    requires
        data.len() <= u32::MAX,
        ss.len() <= usize::MAX,
        0 <= from <= offset <= data.len(),
    ensures
        ops_cover(
            delta_from(data, ss, blength, strong_len, seed, from, offset),
            blength as int,
            from,
            data.len() as int,
        ),
        ops_hit(
            delta_from(data, ss, blength, strong_len, seed, from, offset),
            data,
            ss,
            blength as int,
            strong_len,
            seed,
        ),
    decreases data.len() - offset,
{
    let b = blength as int;
    let ops = delta_from(data, ss, blength, strong_len, seed, from, offset);
    if blength == 0 || offset + blength > data.len() {
        lemma_cover_literal(b, from, data.len() as int);
    } else {
        let window = data.subrange(offset, offset + blength);
        lemma_first_hit_sound(ss, window, strong_len, seed, 0);
        match first_hit(ss, window, strong_len, seed, 0) {
            Some(k) => {
                let m = seq![DeltaOp::Match { block_idx: k as usize, offset: offset as u64 }];
                let tail = delta_from(
                    data,
                    ss,
                    blength,
                    strong_len,
                    seed,
                    offset + blength,
                    offset + blength,
                );
                lemma_delta_from(
                    data,
                    ss,
                    blength,
                    strong_len,
                    seed,
                    offset + blength,
                    offset + blength,
                );
                let lit = literal_op(from, offset);
                lemma_cover_literal(b, from, offset);
                assert(m.skip(1) =~= Seq::<DeltaOp>::empty());
                assert(ops_cover(m, b, offset, offset + blength)) by {
                    reveal_with_fuel(ops_cover, 2);
                }
                lemma_cover_concat(lit, m, b, from, offset, offset + blength);
                lemma_cover_concat(lit + m, tail, b, from, offset + blength, data.len() as int);
                assert forall|i: int| 0 <= i < ops.len() implies match #[trigger] ops[i] {
                    DeltaOp::Match { block_idx, offset } => block_idx < ss.len() && block_hit(
                        ss[block_idx as int],
                        data.subrange(offset as int, offset + b),
                        strong_len,
                        seed,
                    ),
                    DeltaOp::Literal { offset, len } => true,
                } by {
                    let n = (lit + m).len();
                    if i >= n {
                        assert(ops[i] == tail[i - n]);
                    } else if i == n - 1 {
                        assert(ops[i] == m[0]);
                    } else {
                        assert(ops[i] == lit[i]);
                    }
                }
            },
            None => {
                lemma_delta_from(data, ss, blength, strong_len, seed, from, offset + 1);
            },
        }
    }
}

/// The steps describe the whole file, from its first byte to its last, and
/// every match is a block whose checksums the file has there.
pub proof fn delta_covers_file(
    data: Seq<u8>,
    head: SumHead,
    ss: Seq<BlockSum>,
    strong_len: nat,
    seed: u32,
)
    requires
        data.len() <= u32::MAX,
        ss.len() <= usize::MAX,
    ensures
        ops_cover(
            delta_of(data, head, ss, strong_len, seed),
            if head.blength > 0 {
                head.blength as int
            } else {
                0
            },
            0,
            data.len() as int,
        ),
        ops_hit(
            delta_of(data, head, ss, strong_len, seed),
            data,
            ss,
            if head.blength > 0 {
                head.blength as int
            } else {
                0
            },
            strong_len,
            seed,
        ),
{
    let blength = if head.blength > 0 {
        head.blength as nat
    } else {
        0
    };
    lemma_delta_from(data, ss, blength, strong_len, seed, 0, 0);
}

proof fn lemma_delta_hits(
    data: Seq<u8>,
    ss: Seq<BlockSum>,
    blength: nat,
    strong_len: nat,
    seed: u32,
    from: int,
    offset: int,
)
    requires
        data.len() <= u64::MAX,
        ss.len() <= usize::MAX,
    ensures
        ops_hit(
            delta_from(data, ss, blength, strong_len, seed, from, offset),
            data,
            ss,
            blength as int,
            strong_len,
            seed,
        ),
    decreases data.len() - offset,
{
    if !(blength == 0 || offset < 0 || offset + blength > data.len()) {
        let window = data.subrange(offset, offset + blength);
        match first_hit(ss, window, strong_len, seed, 0) {
            Some(k) => {
                lemma_first_hit_sound(ss, window, strong_len, seed, 0);
                let tail = delta_from(
                    data,
                    ss,
                    blength,
                    strong_len,
                    seed,
                    offset + blength,
                    offset + blength,
                );
                lemma_delta_hits(
                    data,
                    ss,
                    blength,
                    strong_len,
                    seed,
                    offset + blength,
                    offset + blength,
                );
                let front = literal_op(from, offset) + seq![
                    DeltaOp::Match { block_idx: k as usize, offset: offset as u64 },
                ];
                let all = front + tail;
                let b = blength as int;
                assert forall|i: int| 0 <= i < all.len() implies match #[trigger] all[i] {
                    DeltaOp::Match { block_idx, offset } => block_idx < ss.len() && block_hit(
                        ss[block_idx as int],
                        data.subrange(offset as int, offset + b),
                        strong_len,
                        seed,
                    ),
                    DeltaOp::Literal { offset, len } => true,
                } by {
                    if i >= front.len() {
                        assert(all[i] == tail[i - front.len()]);
                    } else {
                        assert(all[i] == front[i]);
                    }
                }
            },
            None => {
                lemma_delta_hits(data, ss, blength, strong_len, seed, from, offset + 1);
            },
        }
    }
}

/// Every match in the steps is a block whose checksums the file has there,
/// however long the file is.
pub proof fn matches_are_hits(
    data: Seq<u8>,
    head: SumHead,
    ss: Seq<BlockSum>,
    strong_len: nat,
    seed: u32,
)
    requires
        data.len() <= u64::MAX,
        ss.len() <= usize::MAX,
    ensures
        ops_hit(
            delta_of(data, head, ss, strong_len, seed),
            data,
            ss,
            if head.blength > 0 {
                head.blength as int
            } else {
                0
            },
            strong_len,
            seed,
        ),
        head.blength <= 0 ==> forall|i: int|
            0 <= i < delta_of(data, head, ss, strong_len, seed).len() ==> #[trigger] delta_of(
                data,
                head,
                ss,
                strong_len,
                seed,
            )[i] is Literal,
{
    let blength = if head.blength > 0 {
        head.blength as nat
    } else {
        0
    };
    lemma_delta_hits(data, ss, blength, strong_len, seed, 0, 0);
}

} // verus!
