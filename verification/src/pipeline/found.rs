//! What is decided of a file, from the first look at it to the data that
//! travels.

use vstd::prelude::*;

use crate::checksum::strong::{md5_number, seed_bytes};
use crate::delta::complete::{matching_is_complete, passes_for};
use crate::delta::match_blocks::DeltaOp;
use crate::io::bytes::lemma_le_bytes_len;
use crate::pipeline::generator::{block_of, can_be_summed, head_of, lemma_head_fits, sums_of};
use crate::pipeline::sender::{job_steps, strong_len, JobModel};
use crate::pipeline::sum_len_of;
use crate::protocol::constants::CsumType;
use crate::util::{block_count, block_len, last_block};

verus! {

proof fn lemma_whole_block(basis: Seq<u8>, seed: u32, n: int)
    requires
        can_be_summed(basis.len() as int),
        0 <= n,
        (n + 1) * block_len(basis.len() as int) <= basis.len(),
    ensures
        ({
            let h = head_of(basis.len() as int, sum_len_of(CsumType::Md5));
            let b = h.blength as int;
            let ss = sums_of(basis, h, CsumType::Md5, seed, false);
            &&& b == block_len(basis.len() as int)
            &&& b > 0
            &&& n < ss.len() <= i32::MAX
            &&& passes_for(ss[n], basis.subrange(n * b, n * b + b), strong_len(h), seed)
        }),
{
    let len = basis.len() as int;
    let h = head_of(len, sum_len_of(CsumType::Md5));
    let b = block_len(len);
    lemma_head_fits(len, sum_len_of(CsumType::Md5));
    let count = block_count(len, b);
    assert(h.blength == b && h.count == count);
    assert((n + 1) * b == n * b + b) by (nonlinear_arith);
    assert(0 <= n * b) by (nonlinear_arith)
        requires
            n >= 0,
            b > 0,
    ;
    assert(len > 0);
    let q = (len + b - 1) / b;
    vstd::arithmetic::div_mod::lemma_fundamental_div_mod(len + b - 1, b);
    assert(b * q == q * b) by (nonlinear_arith);
    assert(n < count) by (nonlinear_arith)
        requires
            count == q,
            len + b - 1 == b * q + (len + b - 1) % b,
            (len + b - 1) % b < b,
            b > 0,
            n * b + b <= len,
    ;
    if n == count - 1 {
        assert(len % b == 0) by {
            assert(count * b == n * b + b) by (nonlinear_arith)
                requires
                    n == count - 1,
            ;
            assert(len <= count * b) by {
                assert(len + b - 1 < q * b + b);
            }
            assert(len == count * b);
            vstd::arithmetic::div_mod::lemma_mod_multiples_basic(count, b);
        }
        assert(last_block(len, b) == 0);
    }
    assert(block_of(basis, h, n) =~= basis.subrange(n * b, n * b + b));
    lemma_le_bytes_len(md5_number(basis.subrange(n * b, n * b + b) + seed_bytes(seed)), 16);
}

/// What the receiving side still has is not sent: where the file has a whole
/// block of the older version, as the receiving side asked with the checksums
/// of that version, the start of the block is not in a literal.
pub proof fn unchanged_block_is_not_sent(
    basis: Seq<u8>,
    data: Seq<u8>,
    job: JobModel,
    seed: i32,
    n: int,
    at: int,
    i: int,
)
    requires
        data.len() <= u64::MAX,
        can_be_summed(basis.len() as int),
        job.head == head_of(basis.len() as int, sum_len_of(CsumType::Md5)),
        job.sums == sums_of(basis, job.head, CsumType::Md5, seed as u32, false),
        0 <= n,
        (n + 1) * job.head.blength <= basis.len(),
        0 <= at,
        at + job.head.blength <= data.len(),
        data.subrange(at, at + job.head.blength) == basis.subrange(
            n * job.head.blength,
            (n + 1) * job.head.blength,
        ),
        0 <= i < job_steps(job, data, seed).len(),
    ensures
        job_steps(job, data, seed)[i] matches DeltaOp::Literal { offset, len } ==> !(offset <= at
            < offset + len),
{
    let len = basis.len() as int;
    let b = block_len(len);
    lemma_head_fits(len, sum_len_of(CsumType::Md5));
    assert(job.head.blength == b);
    lemma_whole_block(basis, seed as u32, n);
    assert((n + 1) * b == n * b + b) by (nonlinear_arith);
    match job_steps(job, data, seed)[i] {
        DeltaOp::Literal { offset, len } => {
            if offset <= at < offset + len {
                matching_is_complete(
                    data,
                    job.head,
                    job.sums,
                    strong_len(job.head),
                    seed as u32,
                    i,
                    at,
                    n,
                );
            }
        },
        DeltaOp::Match { .. } => {},
    }
}

} // verus!
