//! What a transfer promises as a whole: the receiving side rebuilds the file
//! that the sending side read.

use vstd::prelude::*;

use crate::checksum::rolling::rolling_sum;
use crate::checksum::strong::{strong_sum, strong_sums_have_a_length, ChecksumType};
use crate::delta::match_blocks::{
    block_hit, delta_covers_file, matches_are_hits, op_len, op_start, ops_cover, parse_sum_bufs,
    placed_sum, sum_bufs_bytes, sum_bufs_round_trip, sum_head_bytes, sum_head_round_trip, DeltaOp,
};
use crate::delta::token::{
    chunk_rest, chunk_tokens, chunks_keep_bytes, enc_tokens, literal_bytes, literal_token,
    sendable_token, token_stream_round_trip, TokenModel,
};
use crate::flags::flag_set;
use crate::io::bytes::{bits32, lemma_le_bytes_len, signed32, WireError};
use crate::io::parse::{lemma_parse_bytes, lemma_parse_shortint};
use crate::io::varint::{enc_int, enc_shortint, NdxPrev, NdxState};
use crate::pipeline::generator::{
    all_apply, basis_block, block_of, can_apply, can_be_summed, head_has_blocks, head_of,
    lemma_head_fits, rebuilt, sums_of, token_bytes,
};
use crate::pipeline::items::{
    can_write_index, index_after, index_bytes, index_round_trip, item_bytes, item_round_trip,
    ItemModel,
};
use crate::pipeline::receiver::{ask_bytes, parse_answer, parse_file};
use crate::pipeline::sender::{
    file_at, file_output, file_tokens, job_steps, max_phase, piece_of, sender_run, sender_step,
    step_tokens, strong_len, JobModel, SenderModel, SenderNext, SenderStage,
};
use crate::pipeline::{computed_type, sum_len_of};
use crate::protocol::constants::{
    CsumType, CHUNK_SIZE, ITEM_BASIS_TYPE_FOLLOWS, ITEM_TRANSFER, ITEM_XNAME_FOLLOWS, NDX_DONE,
};
use crate::protocol::types::{BlockSum, FileList, FileType, SumHead};
use crate::util::{block_count, blocks_cover_file, last_block};

verus! {

proof fn lemma_rebuilt_concat(a: Seq<TokenModel>, b: Seq<TokenModel>, basis: Seq<u8>, h: SumHead)
    ensures
        rebuilt(a + b, basis, h) == rebuilt(a, basis, h) + rebuilt(b, basis, h),
    decreases b.len(),
{
    if b.len() == 0 {
        assert(a + b =~= a);
        assert(rebuilt(a, basis, h) + rebuilt(b, basis, h) =~= rebuilt(a, basis, h));
    } else {
        lemma_rebuilt_concat(a, b.drop_last(), basis, h);
        assert((a + b).drop_last() =~= a + b.drop_last());
        assert((a + b).last() == b.last());
        assert(rebuilt(a + b, basis, h) =~= rebuilt(a, basis, h) + rebuilt(b, basis, h));
    }
}

proof fn lemma_rebuilt_literals(ts: Seq<TokenModel>, basis: Seq<u8>, h: SumHead)
    requires
        forall|i: int| 0 <= i < ts.len() ==> #[trigger] ts[i] is Literal,
    ensures
        rebuilt(ts, basis, h) == literal_bytes(ts),
    decreases ts.len(),
{
    if ts.len() > 0 {
        assert(ts[ts.len() - 1] is Literal);
        lemma_rebuilt_literals(ts.drop_last(), basis, h);
    }
}

proof fn lemma_rebuilt_one(t: TokenModel, basis: Seq<u8>, h: SumHead)
    ensures
        rebuilt(seq![t], basis, h) == token_bytes(t, basis, h),
{
    assert(seq![t].drop_last() =~= Seq::<TokenModel>::empty());
    assert(rebuilt(seq![t].drop_last(), basis, h) =~= Seq::<u8>::empty());
    assert(rebuilt(seq![t], basis, h) =~= token_bytes(t, basis, h));
}

proof fn lemma_rebuilt_literal(s: Seq<u8>, basis: Seq<u8>, h: SumHead)
    ensures
        rebuilt(literal_token(s), basis, h) == s,
{
    if s.len() == 0 {
        assert(rebuilt(literal_token(s), basis, h) =~= s);
    } else {
        lemma_rebuilt_one(TokenModel::Literal(s), basis, h);
    }
}

pub(crate) proof fn lemma_cover_last(ops: Seq<DeltaOp>, b: int, from: int, to: int)
    requires
        ops.len() > 0,
        ops_cover(ops, b, from, to),
    ensures
        ops_cover(ops.drop_last(), b, from, op_start(ops.last())),
        op_start(ops.last()) + op_len(ops.last(), b) == to,
    decreases ops.len(),
{
    if ops.len() == 1 {
        reveal_with_fuel(ops_cover, 2);
        assert(ops.skip(1) =~= Seq::<DeltaOp>::empty());
        assert(ops.drop_last() =~= Seq::<DeltaOp>::empty());
    } else {
        let rest = ops.skip(1);
        lemma_cover_last(rest, b, from + op_len(ops[0], b), to);
        assert(rest.last() == ops.last());
        assert(rest.drop_last() =~= ops.drop_last().skip(1));
        assert(ops.drop_last()[0] == ops[0]);
    }
}

/// Whether every block that some steps copy holds, in the older version, what
/// the file has there.
pub open spec fn copies_agree(
    ops: Seq<DeltaOp>,
    data: Seq<u8>,
    basis: Seq<u8>,
    h: SumHead,
) -> bool {
    forall|i: int|
        0 <= i < ops.len() ==> match #[trigger] ops[i] {
            DeltaOp::Match { block_idx, offset } => block_idx < i32::MAX && basis_block(
                basis,
                h,
                block_idx as int,
            ) == data.subrange(offset as int, offset + h.blength),
            DeltaOp::Literal { offset: _, len: _ } => true,
        }
}

proof fn lemma_steps_rebuild(
    ops: Seq<DeltaOp>,
    data: Seq<u8>,
    basis: Seq<u8>,
    h: SumHead,
    b: int,
    to: int,
)
    requires
        0 <= to <= data.len(),
        b == if h.blength > 0 {
            h.blength as int
        } else {
            0
        },
        ops_cover(ops, b, 0, to),
        h.blength <= 0 ==> forall|i: int| 0 <= i < ops.len() ==> #[trigger] ops[i] is Literal,
        copies_agree(ops, data, basis, h),
    ensures
        rebuilt(step_tokens(ops, data).0, basis, h) + step_tokens(ops, data).1 == data.take(to),
        step_tokens(ops, data).1.len() < CHUNK_SIZE,
        forall|i: int|
            0 <= i < step_tokens(ops, data).0.len() ==> sendable_token(
                #[trigger] step_tokens(ops, data).0[i],
            ),
    decreases ops.len(),
{
    if ops.len() == 0 {
        assert(rebuilt(step_tokens(ops, data).0, basis, h) + step_tokens(ops, data).1
            =~= data.take(to));
    } else {
        let rest = ops.drop_last();
        let last = ops.last();
        assert(last == ops[ops.len() - 1]);
        let at = op_start(last);
        lemma_cover_last(ops, b, 0, to);
        lemma_cover_bound(rest, b, 0, at);
        lemma_steps_rebuild(rest, data, basis, h, b, at);
        let (ts, g) = step_tokens(rest, data);
        let now = step_tokens(ops, data).0;
        match last {
            DeltaOp::Literal { offset, len } => {
                let p = piece_of(data, offset as int, len as int);
                assert(p =~= data.subrange(at, to));
                let all = g + p;
                chunks_keep_bytes(all);
                let more = chunk_tokens(all);
                lemma_rebuilt_concat(ts, more, basis, h);
                lemma_rebuilt_literals(more, basis, h);
                assert(rebuilt(ts + more, basis, h) + chunk_rest(all) =~= rebuilt(ts, basis, h) + (
                literal_bytes(more) + chunk_rest(all)));
                assert(rebuilt(ts, basis, h) + all =~= (rebuilt(ts, basis, h) + g) + p);
                assert(data.take(at) + p =~= data.take(to));
                assert forall|i: int| 0 <= i < now.len() implies sendable_token(
                    #[trigger] now[i],
                ) by {
                    if i >= ts.len() {
                        assert(now[i] == more[i - ts.len()]);
                    } else {
                        assert(now[i] == ts[i]);
                    }
                }
            },
            DeltaOp::Match { block_idx, offset } => {
                let m = TokenModel::BlockMatch(block_idx as i32);
                let lit = literal_token(g);
                lemma_rebuilt_concat(ts, lit, basis, h);
                lemma_rebuilt_literal(g, basis, h);
                lemma_rebuilt_concat(ts + lit, seq![m], basis, h);
                lemma_rebuilt_one(m, basis, h);
                assert(rebuilt(ts + lit + seq![m], basis, h) + Seq::<u8>::empty() =~= data.take(at)
                    + data.subrange(at, to));
                assert(data.take(at) + data.subrange(at, to) =~= data.take(to));
                assert forall|i: int| 0 <= i < now.len() implies sendable_token(
                    #[trigger] now[i],
                ) by {
                    if i < ts.len() {
                        assert(now[i] == ts[i]);
                    } else if i < (ts + lit).len() {
                        assert(now[i] == lit[i - ts.len()]);
                    } else {
                        assert(now[i] == m);
                    }
                }
            },
        }
    }
}

pub(crate) proof fn lemma_cover_bound(ops: Seq<DeltaOp>, b: int, from: int, to: int)
    requires
        ops_cover(ops, b, from, to),
        b >= 0,
    ensures
        from <= to,
    decreases ops.len(),
{
    if ops.len() > 0 {
        lemma_cover_bound(ops.skip(1), b, from + op_len(ops[0], b), to);
    }
}

/// Whether the checksums tell the blocks of the older version apart from
/// everything in the new one that differs from them: wherever the file has
/// the checksums of a block, it has the block.
pub open spec fn sums_tell_apart(job: JobModel, data: Seq<u8>, basis: Seq<u8>, seed: i32) -> bool {
    forall|k: int, offset: int|
        0 <= k < job.sums.len() && 0 <= offset && offset + job.head.blength <= data.len()
            && #[trigger] block_hit(
            job.sums[k],
            data.subrange(offset, offset + job.head.blength),
            strong_len(job.head),
            seed as u32,
        ) ==> basis_block(basis, job.head, k) == data.subrange(offset, offset + job.head.blength)
}

/// Whether the steps of a file stand for all of it.
pub open spec fn steps_cover(job: JobModel, data: Seq<u8>, seed: i32) -> bool {
    ops_cover(
        job_steps(job, data, seed),
        if job.head.blength > 0 {
            job.head.blength as int
        } else {
            0
        },
        0,
        data.len() as int,
    )
}

/// The steps of a file of less than 4 GiB stand for all of it.  In a longer
/// one a stretch of 4 GiB without a block of the older version does not fit
/// the length of a step.
pub proof fn steps_cover_file(job: JobModel, data: Seq<u8>, seed: i32)
    requires
        data.len() <= u32::MAX,
        job.sums.len() <= i32::MAX,
    ensures
        steps_cover(job, data, seed),
{
    delta_covers_file(data, job.head, job.sums, strong_len(job.head), seed as u32);
}

pub(crate) proof fn lemma_copies_agree(job: JobModel, data: Seq<u8>, basis: Seq<u8>, seed: i32)
    requires
        data.len() <= u64::MAX,
        job.sums.len() <= i32::MAX,
        steps_cover(job, data, seed),
        sums_tell_apart(job, data, basis, seed),
    ensures
        copies_agree(job_steps(job, data, seed), data, basis, job.head),
        job.head.blength <= 0 ==> forall|i: int|
            0 <= i < job_steps(job, data, seed).len() ==> #[trigger] job_steps(
                job,
                data,
                seed,
            )[i] is Literal,
{
    let ops = job_steps(job, data, seed);
    let strong_len = strong_len(job.head);
    matches_are_hits(data, job.head, job.sums, strong_len, seed as u32);
    if job.head.blength > 0 {
        lemma_ops_within(ops, job.head.blength as int, 0, data.len() as int);
        assert forall|i: int| 0 <= i < ops.len() implies match #[trigger] ops[i] {
            DeltaOp::Match { block_idx, offset } => block_idx < i32::MAX && basis_block(
                basis,
                job.head,
                block_idx as int,
            ) == data.subrange(offset as int, offset + job.head.blength),
            DeltaOp::Literal { offset: _, len: _ } => true,
        } by {
            match ops[i] {
                DeltaOp::Match { block_idx, offset } => {
                    assert(block_hit(
                        job.sums[block_idx as int],
                        data.subrange(offset as int, offset + job.head.blength),
                        strong_len,
                        seed as u32,
                    ));
                },
                DeltaOp::Literal { offset: _, len: _ } => {},
            }
        }
    }
}

pub(crate) proof fn lemma_ops_within(ops: Seq<DeltaOp>, b: int, from: int, to: int)
    requires
        ops_cover(ops, b, from, to),
        0 <= from,
        b >= 0,
    ensures
        forall|i: int|
            0 <= i < ops.len() ==> from <= op_start(#[trigger] ops[i]) && op_start(ops[i]) + op_len(
                ops[i],
                b,
            ) <= to,
    decreases ops.len(),
{
    if ops.len() > 0 {
        let rest = ops.skip(1);
        let next = from + op_len(ops[0], b);
        lemma_ops_within(rest, b, next, to);
        lemma_cover_bound(rest, b, next, to);
        assert forall|i: int| 0 <= i < ops.len() implies from <= op_start(#[trigger] ops[i])
            && op_start(ops[i]) + op_len(ops[i], b) <= to by {
            if i > 0 {
                assert(ops[i] == rest[i - 1]);
            }
        }
    }
}

/// The tokens that the sender makes of a file, applied to the older version
/// on the receiving side, give the file back, as long as the checksums tell
/// apart what differs.
pub proof fn tokens_rebuild_file(job: JobModel, data: Seq<u8>, basis: Seq<u8>, seed: i32)
    requires
        data.len() <= u64::MAX,
        job.sums.len() <= i32::MAX,
        steps_cover(job, data, seed),
        sums_tell_apart(job, data, basis, seed),
    ensures
        rebuilt(file_tokens(job_steps(job, data, seed), data), basis, job.head) == data,
        forall|i: int|
            0 <= i < file_tokens(job_steps(job, data, seed), data).len() ==> sendable_token(
                #[trigger] file_tokens(job_steps(job, data, seed), data)[i],
            ),
{
    let ops = job_steps(job, data, seed);
    let b = if job.head.blength > 0 {
        job.head.blength as int
    } else {
        0
    };
    lemma_copies_agree(job, data, basis, seed);
    lemma_steps_rebuild(ops, data, basis, job.head, b, data.len() as int);
    let (ts, g) = step_tokens(ops, data);
    let lit = literal_token(g);
    lemma_rebuilt_concat(ts, lit, basis, job.head);
    lemma_rebuilt_literal(g, basis, job.head);
    assert(data.take(data.len() as int) =~= data);
    let all = file_tokens(ops, data);
    assert forall|i: int| 0 <= i < all.len() implies sendable_token(#[trigger] all[i]) by {
        if i < ts.len() {
            assert(all[i] == ts[i]);
        } else {
            assert(all[i] == lit[i - ts.len()]);
        }
    }
}

/// The receiving side reads from the wire what the sending side wrote for a
/// file, and rebuilds the file from it.
pub proof fn file_survives_transfer(
    job: JobModel,
    data: Seq<u8>,
    basis: Seq<u8>,
    seed: i32,
    tail: Seq<u8>,
)
    requires
        data.len() <= u64::MAX,
        job.sums.len() <= i32::MAX,
        steps_cover(job, data, seed),
        job.head.blength >= 0,
        job.head.remainder >= 0,
        sums_tell_apart(job, data, basis, seed),
    ensures
        parse_file(
            enc_tokens(file_tokens(job_steps(job, data, seed), data)) + enc_int(0) + tail,
            basis,
            job.head,
            false,
        ) == Ok::<(Seq<u8>, Seq<u8>), WireError>((data, tail)),
{
    let ts = file_tokens(job_steps(job, data, seed), data);
    tokens_rebuild_file(job, data, basis, seed);
    token_stream_round_trip(ts, Seq::empty(), tail);
    assert(Seq::<TokenModel>::empty() + ts =~= ts);
}

/// The answer to a request, as the sending side writes it, is read back as
/// the file and its checksum.
pub proof fn answer_round_trip(
    protocol: u32,
    prev: NdxPrev,
    job: JobModel,
    data: Seq<u8>,
    basis: Seq<u8>,
    seed: i32,
    tail: Seq<u8>,
)
    requires
        can_write_index(protocol, job.ndx),
        data.len() <= u64::MAX,
        job.sums.len() <= i32::MAX,
        steps_cover(job, data, seed),
        job.head.blength >= 0,
        job.head.remainder >= 0,
        sums_tell_apart(job, data, basis, seed),
    ensures
        ({
            let echo = index_bytes(protocol, prev, job.ndx) + if protocol >= 29 {
                enc_shortint(ITEM_TRANSFER as u16)
            } else {
                Seq::empty()
            };
            file_output(echo, job, data, seed, false) matches Ok(out) && parse_answer(
                protocol,
                prev,
                out + tail,
                basis,
                false,
                16,
            ) == Ok::<((Seq<u8>, NdxPrev, Seq<u8>), Seq<u8>), WireError>(
                (
                    (
                        data,
                        index_after(protocol, prev, job.ndx),
                        strong_sum(data, ChecksumType::Md5, 0, false),
                    ),
                    tail,
                ),
            )
        }),
{
    let a = index_bytes(protocol, prev, job.ndx);
    let f = if protocol >= 29 {
        enc_shortint(ITEM_TRANSFER as u16)
    } else {
        Seq::empty()
    };
    let h = sum_head_bytes(job.head);
    let t = enc_tokens(file_tokens(job_steps(job, data, seed), data));
    let sum = strong_sum(data, ChecksumType::Md5, 0, false);
    strong_sums_have_a_length(data, ChecksumType::Md5, 0, false);
    let out = file_output(a + f, job, data, seed, false)->Ok_0;
    let r4 = sum + tail;
    let r3 = t + enc_int(0) + r4;
    let r2 = h + r3;
    let r1 = f + r2;
    assert(out + tail =~= a + r1);
    index_round_trip(protocol, prev, job.ndx, r1);
    if protocol >= 29 {
        lemma_parse_shortint(ITEM_TRANSFER as u16, r2);
    } else {
        assert(r1 =~= r2);
    }
    sum_head_round_trip(job.head, r3);
    file_survives_transfer(job, data, basis, seed, r4);
    lemma_parse_bytes(sum, tail);
}

proof fn lemma_sums_have_len(basis: Seq<u8>, h: SumHead, ct: CsumType, seed: u32)
    requires
        h.s2length == sum_len_of(ct),
    ensures
        forall|i: int|
            0 <= i < sums_of(basis, h, ct, seed, false).len() ==> (#[trigger] sums_of(
                basis,
                h,
                ct,
                seed,
                false,
            )[i]).sum2.len() == h.s2length,
{
    let ss = sums_of(basis, h, ct, seed, false);
    assert forall|i: int| 0 <= i < ss.len() implies (#[trigger] ss[i]).sum2.len() == h.s2length by {
        strong_sums_have_a_length(block_of(basis, h, i), computed_type(ct), seed, false);
    }
}

/// The sending side understands what the receiving side asks for: it repeats
/// the head of the request, and has the layout and the checksums of the older
/// version as the receiving side computed them.
pub proof fn request_is_understood(
    m: SenderModel,
    l: FileList,
    protocol: u32,
    ndx: i32,
    basis: Seq<u8>,
    ct: CsumType,
    seed: i32,
    tail: Seq<u8>,
)
    requires
        m.stage == SenderStage::Request,
        0 <= ndx,
        file_at(l, ndx) matches Some(f) && f.file_type() == FileType::Regular,
        can_be_summed(basis.len() as int),
        m.input == ask_bytes(protocol, m.ndx.read, ndx, Some(basis), ct, seed) + tail,
    ensures
        ({
            let head = head_of(basis.len() as int, sum_len_of(ct));
            let (last, n) = sender_run(m, l, protocol);
            &&& last == SenderNext::File(
                n,
                JobModel {
                    ndx,
                    path: file_at(l, ndx)->0.path(),
                    head,
                    sums: sums_of(basis, head, ct, seed as u32, false),
                },
            )
            &&& n.input == tail
            &&& n.stage == SenderStage::Data(ndx)
            &&& n.output == m.output + index_bytes(protocol, m.ndx.write, ndx) + if protocol >= 29 {
                enc_shortint(ITEM_TRANSFER as u16)
            } else {
                Seq::empty()
            }
        }),
{
    let len = basis.len() as int;
    let head = head_of(len, sum_len_of(ct));
    let ss = sums_of(basis, head, ct, seed as u32, false);
    let flags = if protocol >= 29 {
        enc_shortint(ITEM_TRANSFER as u16)
    } else {
        Seq::empty()
    };
    let r2 = sum_bufs_bytes(ss) + tail;
    let r1 = sum_head_bytes(head) + r2;
    let r0 = flags + r1;
    assert(m.input =~= index_bytes(protocol, m.ndx.read, ndx) + r0);
    index_round_trip(protocol, m.ndx.read, ndx, r0);
    let item = ItemModel { iflags: ITEM_TRANSFER, basis_type: 0, xname: Seq::empty() };
    assert(!flag_set(ITEM_TRANSFER, ITEM_BASIS_TYPE_FOLLOWS));
    assert(!flag_set(ITEM_TRANSFER, ITEM_XNAME_FOLLOWS));
    assert(flag_set(ITEM_TRANSFER, ITEM_TRANSFER));
    assert(item_bytes(protocol, item) =~= flags);
    item_round_trip(protocol, item, r1);
    let n = SenderModel {
        input: r1,
        output: m.output + index_bytes(protocol, m.ndx.write, ndx) + item_bytes(protocol, item),
        phase: m.phase,
        ndx: NdxState {
            read: index_after(protocol, m.ndx.read, ndx),
            write: index_after(protocol, m.ndx.write, ndx),
        },
        stage: SenderStage::Sums(ndx),
    };
    assert(sender_step(m, l, protocol) == SenderNext::Go(n));
    lemma_index_len(protocol, m.ndx.read, ndx);
    assert(n.input.len() < m.input.len());
    sum_head_round_trip(head, r2);
    lemma_head_fits(len, sum_len_of(ct));
    lemma_sums_have_len(basis, head, ct, seed as u32);
    if head_has_blocks(head) {
        sum_bufs_round_trip(ss, head, tail);
        let placed = Seq::new(ss.len(), |i: int| placed_sum(head, i, ss[i]));
        assert(placed =~= ss);
    } else {
        assert(sum_bufs_bytes(ss) =~= Seq::<u8>::empty());
        assert(r2 =~= tail);
        assert(head.count == 0) by {
            lemma_block_len_positive(len);
        }
        assert(parse_sum_bufs(tail, head) == Ok::<(Seq<BlockSum>, Seq<u8>), WireError>(
            (Seq::empty(), tail),
        ));
    }
    assert(sender_run(m, l, protocol) == sender_run(n, l, protocol));
}

proof fn lemma_block_len_positive(file_size: int)
    ensures
        crate::util::block_len(file_size) >= 700,
{
}

proof fn lemma_index_len(protocol: u32, prev: NdxPrev, ndx: i32)
    requires
        can_write_index(protocol, ndx),
    ensures
        index_bytes(protocol, prev, ndx).len() > 0,
{
    crate::io::bytes::lemma_le_bytes_len(crate::io::bytes::bits32(ndx), 4);
}

/// `n` times that a side is done.
pub open spec fn dones(protocol: u32, prev: NdxPrev, n: nat) -> Seq<u8>
    decreases n,
{
    if n == 0 {
        Seq::empty()
    } else {
        index_bytes(protocol, prev, NDX_DONE) + dones(protocol, prev, (n - 1) as nat)
    }
}

proof fn lemma_sender_counts(m: SenderModel, l: FileList, protocol: u32, n: nat, tail: Seq<u8>)
    requires
        m.stage == SenderStage::Request,
        n > 0,
        m.phase + n == max_phase(protocol) + 1,
        m.input == dones(protocol, m.ndx.read, n) + tail,
    ensures
        ({
            let (last, s) = sender_run(m, l, protocol);
            &&& last == SenderNext::Finished(s)
            &&& s.input == tail
            &&& s.output == m.output + dones(protocol, m.ndx.write, n)
            &&& s.stage == SenderStage::Done
        }),
    decreases n,
{
    let rest = dones(protocol, m.ndx.read, (n - 1) as nat) + tail;
    assert(m.input =~= index_bytes(protocol, m.ndx.read, NDX_DONE) + rest);
    index_round_trip(protocol, m.ndx.read, NDX_DONE, rest);
    lemma_index_len(protocol, m.ndx.read, NDX_DONE);
    let next = SenderModel {
        input: rest,
        output: m.output + index_bytes(protocol, m.ndx.write, NDX_DONE),
        phase: (m.phase + 1) as u32,
        ndx: m.ndx,
        stage: SenderStage::Request,
    };
    if n == 1 {
        assert(rest =~= tail);
        assert(dones(protocol, m.ndx.write, 1) =~= index_bytes(protocol, m.ndx.write, NDX_DONE)) by {
            assert(dones(protocol, m.ndx.write, 0) =~= Seq::<u8>::empty());
        }
    } else {
        assert(sender_step(m, l, protocol) == SenderNext::Go(next));
        lemma_sender_counts(next, l, protocol, (n - 1) as nat, tail);
        assert(next.output + dones(protocol, m.ndx.write, (n - 1) as nat) =~= m.output + dones(
            protocol,
            m.ndx.write,
            n,
        ));
    }
}

/// A sender is done once it was told so for every phase, and it answers each
/// time.
pub proof fn sender_answers_every_phase(
    m: SenderModel,
    l: FileList,
    protocol: u32,
    tail: Seq<u8>,
)
    requires
        m.stage == SenderStage::Request,
        m.phase == 0,
        m.input == dones(protocol, m.ndx.read, (max_phase(protocol) + 1) as nat) + tail,
    ensures
        ({
            let (last, s) = sender_run(m, l, protocol);
            &&& last == SenderNext::Finished(s)
            &&& s.input == tail
            &&& s.output == m.output + dones(
                protocol,
                m.ndx.write,
                (max_phase(protocol) + 1) as nat,
            )
        }),
{
    lemma_sender_counts(m, l, protocol, (max_phase(protocol) + 1) as nat, tail);
}

// ---------------------------------------------------------------------------
// One token for each step
// ---------------------------------------------------------------------------

/// The token for one step of a file.
pub open spec fn step_token(op: DeltaOp, data: Seq<u8>) -> TokenModel {
    match op {
        DeltaOp::Literal { offset, len } => TokenModel::Literal(
            piece_of(data, offset as int, len as int),
        ),
        DeltaOp::Match { block_idx, offset: _ } => TokenModel::BlockMatch(block_idx as i32),
    }
}

/// The tokens for some steps, one for each.
pub open spec fn tokens_of_steps(ops: Seq<DeltaOp>, data: Seq<u8>) -> Seq<TokenModel> {
    Seq::new(ops.len(), |i: int| step_token(ops[i], data))
}

proof fn lemma_one_by_one(
    ops: Seq<DeltaOp>,
    data: Seq<u8>,
    basis: Seq<u8>,
    h: SumHead,
    b: int,
    to: int,
)
    requires
        0 <= to <= data.len(),
        b == if h.blength > 0 {
            h.blength as int
        } else {
            0
        },
        ops_cover(ops, b, 0, to),
        h.blength <= 0 ==> forall|i: int| 0 <= i < ops.len() ==> #[trigger] ops[i] is Literal,
        copies_agree(ops, data, basis, h),
    ensures
        rebuilt(tokens_of_steps(ops, data), basis, h) == data.take(to),
    decreases ops.len(),
{
    let ts = tokens_of_steps(ops, data);
    if ops.len() == 0 {
        assert(rebuilt(ts, basis, h) =~= data.take(to));
    } else {
        let rest = ops.drop_last();
        let last = ops.last();
        assert(last == ops[ops.len() - 1]);
        let at = op_start(last);
        lemma_cover_last(ops, b, 0, to);
        lemma_cover_bound(rest, b, 0, at);
        lemma_one_by_one(rest, data, basis, h, b, at);
        assert(ts.drop_last() =~= tokens_of_steps(rest, data));
        assert(token_bytes(ts.last(), basis, h) =~= data.subrange(at, to));
        assert(data.take(at) + data.subrange(at, to) =~= data.take(to));
    }
}

/// The steps of a file, each as one token, applied to the older version on the
/// receiving side, give the file back, as long as the checksums tell apart
/// what differs; and every token can be applied where the header is sound.
pub proof fn steps_rebuild_file(job: JobModel, data: Seq<u8>, basis: Seq<u8>, seed: i32)
    requires
        data.len() <= u64::MAX,
        job.sums.len() <= i32::MAX,
        steps_cover(job, data, seed),
        sums_tell_apart(job, data, basis, seed),
    ensures
        rebuilt(tokens_of_steps(job_steps(job, data, seed), data), basis, job.head) == data,
        job.head.remainder >= 0 ==> all_apply(
            tokens_of_steps(job_steps(job, data, seed), data),
            job.head,
        ),
{
    let ops = job_steps(job, data, seed);
    let b = if job.head.blength > 0 {
        job.head.blength as int
    } else {
        0
    };
    lemma_copies_agree(job, data, basis, seed);
    lemma_one_by_one(ops, data, basis, job.head, b, data.len() as int);
    assert(data.take(data.len() as int) =~= data);
    if job.head.remainder >= 0 {
        let ts = tokens_of_steps(ops, data);
        assert forall|i: int| 0 <= i < ts.len() implies can_apply(#[trigger] ts[i], job.head) by {
            assert(ts[i] == step_token(ops[i], data));
        }
    }
}

// ---------------------------------------------------------------------------
// Checksums that are sent
// ---------------------------------------------------------------------------

/// The first `n` blocks of a file, one behind the other.
pub open spec fn blocks_joined(data: Seq<u8>, h: SumHead, n: nat) -> Seq<u8>
    decreases n,
{
    if n == 0 {
        Seq::empty()
    } else {
        blocks_joined(data, h, (n - 1) as nat) + block_of(data, h, n - 1)
    }
}

/// Whether a header lays out the blocks of a file of `len` bytes.
pub open spec fn lays_out(h: SumHead, len: int) -> bool {
    &&& h.blength > 0
    &&& h.count == block_count(len, h.blength as int)
    &&& h.remainder == last_block(len, h.blength as int)
}

proof fn lemma_blocks_joined(data: Seq<u8>, h: SumHead, n: nat)
    requires
        lays_out(h, data.len() as int),
        n <= h.count,
    ensures
        n < h.count ==> n * h.blength <= data.len() && blocks_joined(data, h, n) == data.take(
            n * h.blength,
        ),
        n == h.count ==> blocks_joined(data, h, n) == data,
    decreases n,
{
    let b = h.blength as int;
    let len = data.len() as int;
    if len > 0 {
        blocks_cover_file(len, b);
        assert(n < h.count ==> n * b <= (h.count - 1) * b) by (nonlinear_arith)
            requires
                b > 0,
        ;
    }
    if n == 0 {
        assert(blocks_joined(data, h, 0) =~= data.take(0));
        if h.count == 0 {
            assert(len == 0) by {
                if len > 0 {
                    assert((len + b - 1) / b >= 1) by (nonlinear_arith)
                        requires
                            len > 0,
                            b > 0,
                    ;
                }
            }
            assert(blocks_joined(data, h, 0) =~= data);
        }
    } else {
        let k = (n - 1) as nat;
        lemma_blocks_joined(data, h, k);
        assert(n * b == k * b + b) by (nonlinear_arith)
            requires
                n == k + 1,
        ;
        let block = block_of(data, h, k as int);
        if n < h.count {
            assert(block =~= data.subrange(k * b, n * b));
            assert(data.take(k * b) + block =~= data.take(n * b));
        } else {
            assert(block =~= data.subrange(k * b, len));
            assert(data.take(k * b) + block =~= data);
        }
    }
}

proof fn lemma_sums_len(ss: Seq<BlockSum>, n: nat)
    requires
        forall|i: int| 0 <= i < ss.len() ==> (#[trigger] ss[i]).sum2.len() == n,
    ensures
        sum_bufs_bytes(ss).len() == ss.len() * (4 + n),
    decreases ss.len(),
{
    if ss.len() > 0 {
        let rest = ss.drop_last();
        assert forall|i: int| 0 <= i < rest.len() implies (#[trigger] rest[i]).sum2.len() == n by {
            assert(rest[i] == ss[i]);
        }
        lemma_sums_len(rest, n);
        assert(ss.last() == ss[ss.len() - 1]);
        lemma_le_bytes_len(bits32(signed32(ss.last().sum1 as nat)), 4);
        assert(ss.len() * (4 + n) == rest.len() * (4 + n) + (4 + n)) by (nonlinear_arith)
            requires
                ss.len() == rest.len() + 1,
        ;
    }
}

/// The checksums that are written for a file are read back, one for each
/// block, in as many bytes as the header says; and the blocks cover the file
/// once, from its first byte to its last.
pub proof fn written_sums_cover_data(
    data: Seq<u8>,
    h: SumHead,
    ct: CsumType,
    seed: u32,
    proper_seed_order: bool,
    tail: Seq<u8>,
)
    requires
        lays_out(h, data.len() as int),
        0 <= h.s2length <= 16,
        ct != CsumType::NoSum,
    ensures
        ({
            let ss = sums_of(data, h, ct, seed, proper_seed_order);
            &&& sum_bufs_bytes(ss).len() == h.count * (4 + h.s2length)
            &&& parse_sum_bufs(sum_bufs_bytes(ss) + tail, h) matches Ok((got, rest)) && rest == tail
                && got.len() == h.count && forall|i: int|
                0 <= i < h.count ==> (#[trigger] got[i]).sum1 == rolling_sum(block_of(data, h, i))
                    && got[i].sum2 == ss[i].sum2
        }),
        blocks_joined(data, h, h.count as nat) == data,
{
    let ss = sums_of(data, h, ct, seed, proper_seed_order);
    lemma_blocks_joined(data, h, h.count as nat);
    assert forall|i: int| 0 <= i < ss.len() implies (#[trigger] ss[i]).sum2.len() == h.s2length by {
        strong_sums_have_a_length(
            block_of(data, h, i),
            computed_type(ct),
            seed,
            proper_seed_order,
        );
    }
    assert(ss.len() == h.count) by {
        assert(h.count >= 0);
    }
    lemma_sums_len(ss, h.s2length as nat);
    sum_bufs_round_trip(ss, h, tail);
    let got = Seq::new(ss.len(), |i: int| placed_sum(h, i, ss[i]));
    assert forall|i: int| 0 <= i < h.count implies (#[trigger] got[i]).sum1 == rolling_sum(
        block_of(data, h, i),
    ) && got[i].sum2 == ss[i].sum2 by {
        assert(got[i] == placed_sum(h, i, ss[i]));
    }
}

} // verus!
