//! What the match search never misses.

use vstd::prelude::*;

use crate::checksum::rolling::rolling_sum;
use crate::checksum::strong::{md5_digest, md5_number, seed_bytes};
use crate::delta::match_blocks::{
    block_hit, delta_from, delta_of, first_hit, lemma_first_hit_sound, literal_op, sums_agree,
    DeltaOp,
};
use crate::io::bytes::lemma_le_bytes_len;
use crate::protocol::types::{BlockSum, SumHead};

verus! {

proof fn lemma_bytes_agree(digest: Seq<u8>, stored: Seq<u8>, n: nat)
    ensures
        sums_agree(digest, stored, n) == ((n <= digest.len() || stored.len() <= digest.len())
            && forall|j: int| 0 <= j < n && j < stored.len() ==> #[trigger] stored[j] == digest[j]),
{
    let k = if n < stored.len() {
        n
    } else {
        stored.len()
    };
    if sums_agree(digest, stored, n) {
        assert forall|j: int| 0 <= j < n && j < stored.len() implies #[trigger] stored[j]
            == digest[j] by {
            assert(stored.take(k as int)[j] == digest.take(k as int)[j]);
        }
    }
    if k <= digest.len() && forall|j: int|
        0 <= j < n && j < stored.len() ==> #[trigger] stored[j] == digest[j] {
        assert(digest.take(k as int) =~= stored.take(k as int));
    }
}

proof fn lemma_first_hit_first(
    ss: Seq<BlockSum>,
    window: Seq<u8>,
    strong_len: nat,
    seed: u32,
    k: nat,
    j: int,
)
    requires
        k <= j < ss.len(),
        match first_hit(ss, window, strong_len, seed, k) {
            Some(i) => j < i,
            None => true,
        },
    ensures
        !block_hit(ss[j], window, strong_len, seed),
    decreases ss.len() - k,
{
    if !block_hit(ss[k as int], window, strong_len, seed) && j > k {
        lemma_first_hit_first(ss, window, strong_len, seed, k + 1, j);
    }
}

/// Whether no block has the checksums of the window at `at`.
spec fn no_hit(
    data: Seq<u8>,
    ss: Seq<BlockSum>,
    b: int,
    strong_len: nat,
    seed: u32,
    at: int,
) -> bool {
    forall|k: int|
        0 <= k < ss.len() ==> !block_hit(
            #[trigger] ss[k],
            data.subrange(at, at + b),
            strong_len,
            seed,
        )
}

/// Whether no window of the file that starts in a literal has the checksums of
/// a block, and every match is the first block with those of its window.
spec fn ops_complete(
    ops: Seq<DeltaOp>,
    data: Seq<u8>,
    ss: Seq<BlockSum>,
    b: int,
    strong_len: nat,
    seed: u32,
) -> bool {
    forall|i: int|
        0 <= i < ops.len() ==> match #[trigger] ops[i] {
            DeltaOp::Literal { offset, len } => forall|at: int|
                offset <= at < offset + len && at + b <= data.len() ==> #[trigger] no_hit(
                    data,
                    ss,
                    b,
                    strong_len,
                    seed,
                    at,
                ),
            DeltaOp::Match { block_idx, offset } => first_hit(
                ss,
                data.subrange(offset as int, offset + b),
                strong_len,
                seed,
                0,
            ) == Some(block_idx as nat),
        }
}

proof fn lemma_cut_length(n: int)
    requires
        0 <= n <= u64::MAX,
    ensures
        (n as u32) <= n,
{
    let x = n as u64;
    assert((x as u32) as u64 <= x) by (bit_vector);
    assert(n as u32 == x as u32);
}

proof fn lemma_delta_complete(
    data: Seq<u8>,
    ss: Seq<BlockSum>,
    blength: nat,
    strong_len: nat,
    seed: u32,
    from: int,
    offset: int,
)
    requires
        data.len() <= u64::MAX,
        ss.len() <= usize::MAX,
        blength > 0,
        0 <= from <= offset <= data.len(),
        forall|at: int|
            from <= at < offset && at + blength <= data.len() ==> #[trigger] no_hit(
                data,
                ss,
                blength as int,
                strong_len,
                seed,
                at,
            ),
    ensures
        ops_complete(
            delta_from(data, ss, blength, strong_len, seed, from, offset),
            data,
            ss,
            blength as int,
            strong_len,
            seed,
        ),
    decreases data.len() - offset,
{
    let b = blength as int;
    let ops = delta_from(data, ss, blength, strong_len, seed, from, offset);
    if offset + blength > data.len() {
        let n = data.len() as int;
        lemma_cut_length(n - from);
        assert forall|i: int| 0 <= i < ops.len() implies match #[trigger] ops[i] {
            DeltaOp::Literal { offset: o, len } => forall|at: int|
                o <= at < o + len && at + b <= data.len() ==> #[trigger] no_hit(
                    data,
                    ss,
                    b,
                    strong_len,
                    seed,
                    at,
                ),
            DeltaOp::Match { .. } => false,
        } by {}
    } else {
        let window = data.subrange(offset, offset + blength);
        lemma_first_hit_sound(ss, window, strong_len, seed, 0);
        match first_hit(ss, window, strong_len, seed, 0) {
            Some(k) => {
                let lit = literal_op(from, offset);
                let m = seq![DeltaOp::Match { block_idx: k as usize, offset: offset as u64 }];
                let next = offset + blength;
                let tail = delta_from(data, ss, blength, strong_len, seed, next, next);
                lemma_delta_complete(data, ss, blength, strong_len, seed, next, next);
                lemma_cut_length(offset - from);
                let n = (lit + m).len();
                assert forall|i: int| 0 <= i < ops.len() implies match #[trigger] ops[i] {
                    DeltaOp::Literal { offset: o, len } => forall|at: int|
                        o <= at < o + len && at + b <= data.len() ==> #[trigger] no_hit(
                            data,
                            ss,
                            b,
                            strong_len,
                            seed,
                            at,
                        ),
                    DeltaOp::Match { block_idx, offset: o } => first_hit(
                        ss,
                        data.subrange(o as int, o + b),
                        strong_len,
                        seed,
                        0,
                    ) == Some(block_idx as nat),
                } by {
                    if i >= n {
                        assert(ops[i] == tail[i - n]);
                    } else if i == n - 1 {
                        assert(ops[i] == m[0]);
                    } else {
                        assert(ops[i] == lit[i]);
                    }
                }
            },
            None => {
                assert(no_hit(data, ss, b, strong_len, seed, offset)) by {
                    assert forall|k: int| 0 <= k < ss.len() implies !block_hit(
                        #[trigger] ss[k],
                        window,
                        strong_len,
                        seed,
                    ) by {
                        lemma_first_hit_first(ss, window, strong_len, seed, 0, k);
                    }
                }
                lemma_delta_complete(data, ss, blength, strong_len, seed, from, offset + 1);
            },
        }
    }
}

/// Whether a block passes for a window of the file, byte for byte of what is
/// compared: it is as long, has the same rolling checksum, and the bytes of its
/// strong checksum that are compared are those of the window's.
pub open spec fn passes_for(s: BlockSum, window: Seq<u8>, strong_len: nat, seed: u32) -> bool {
    &&& s.len == window.len()
    &&& s.sum1 == rolling_sum(window)
    &&& strong_len <= 16 || s.sum2.len() <= 16
    &&& forall|j: int|
        0 <= j < strong_len && j < s.sum2.len() ==> #[trigger] s.sum2[j] == md5_digest(
            window + seed_bytes(seed),
        )[j]
}

pub(crate) proof fn lemma_passes_for(s: BlockSum, window: Seq<u8>, strong_len: nat, seed: u32)
    ensures
        passes_for(s, window, strong_len, seed) == block_hit(s, window, strong_len, seed),
{
    let digest = md5_digest(window + seed_bytes(seed));
    lemma_le_bytes_len(md5_number(window + seed_bytes(seed)), 16);
    assert(digest.len() == 16);
    lemma_bytes_agree(digest, s.sum2, strong_len);
}

/// Matching is complete: no window of one block length that starts within a
/// literal passes for a block of the older version.
pub proof fn matching_is_complete(
    data: Seq<u8>,
    head: SumHead,
    ss: Seq<BlockSum>,
    strong_len: nat,
    seed: u32,
    i: int,
    at: int,
    k: int,
)
    requires
        data.len() <= u64::MAX,
        ss.len() <= usize::MAX,
        0 < head.blength,
        0 <= i < delta_of(data, head, ss, strong_len, seed).len(),
        delta_of(data, head, ss, strong_len, seed)[i] matches DeltaOp::Literal { offset, len }
            && offset <= at < offset + len,
        at + head.blength <= data.len(),
        0 <= k < ss.len(),
    ensures
        !passes_for(ss[k], data.subrange(at, at + head.blength), strong_len, seed),
{
    let b = head.blength as int;
    let window = data.subrange(at, at + b);
    lemma_delta_complete(data, ss, b as nat, strong_len, seed, 0, 0);
    lemma_passes_for(ss[k], window, strong_len, seed);
    assert(no_hit(data, ss, b, strong_len, seed, at));
}

/// A match is a block of the older version that passes for the window of the
/// file there.  Of several such blocks it is the one that comes first.
pub proof fn first_of_equal_blocks_is_taken(
    data: Seq<u8>,
    head: SumHead,
    ss: Seq<BlockSum>,
    strong_len: nat,
    seed: u32,
    i: int,
    k: int,
)
    requires
        data.len() <= u64::MAX,
        ss.len() <= usize::MAX,
        0 < head.blength,
        0 <= i < delta_of(data, head, ss, strong_len, seed).len(),
        delta_of(data, head, ss, strong_len, seed)[i] is Match,
    ensures
        delta_of(data, head, ss, strong_len, seed)[i] matches DeltaOp::Match { block_idx, offset } && ({
            let window = data.subrange(offset as int, offset + head.blength);
            &&& block_idx < ss.len()
            &&& passes_for(ss[block_idx as int], window, strong_len, seed)
            &&& 0 <= k < ss.len() && passes_for(ss[k], window, strong_len, seed) ==> block_idx <= k
        }),
{
    let b = head.blength as int;
    let ops = delta_of(data, head, ss, strong_len, seed);
    lemma_delta_complete(data, ss, b as nat, strong_len, seed, 0, 0);
    match ops[i] {
        DeltaOp::Match { block_idx, offset } => {
            let window = data.subrange(offset as int, offset + b);
            lemma_first_hit_sound(ss, window, strong_len, seed, 0);
            lemma_passes_for(ss[block_idx as int], window, strong_len, seed);
            lemma_passes_for(ss[k], window, strong_len, seed);
            if 0 <= k < block_idx {
                lemma_first_hit_first(ss, window, strong_len, seed, 0, k);
            }
        },
        DeltaOp::Literal { .. } => {},
    }
}

/// A file that starts with what passes for a block starts with a match.
pub proof fn passing_start_is_matched(
    data: Seq<u8>,
    head: SumHead,
    ss: Seq<BlockSum>,
    strong_len: nat,
    seed: u32,
    k: int,
)
    requires
        data.len() <= u64::MAX,
        ss.len() <= usize::MAX,
        0 < head.blength <= data.len(),
        0 <= k < ss.len(),
        passes_for(ss[k], data.take(head.blength as int), strong_len, seed),
    ensures
        delta_of(data, head, ss, strong_len, seed).len() > 0,
        delta_of(data, head, ss, strong_len, seed)[0] matches DeltaOp::Match { block_idx, offset }
            && offset == 0 && block_idx <= k,
{
    let window = data.subrange(0, head.blength as int);
    assert(window =~= data.take(head.blength as int));
    lemma_passes_for(ss[k], window, strong_len, seed);
    lemma_first_hit_sound(ss, window, strong_len, seed, 0);
    match first_hit(ss, window, strong_len, seed, 0) {
        Some(i) => {
            if k < i {
                lemma_first_hit_first(ss, window, strong_len, seed, 0, k);
            }
        },
        None => {
            lemma_first_hit_first(ss, window, strong_len, seed, 0, k);
        },
    }
}

} // verus!
