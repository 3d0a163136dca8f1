//! What a compressed transfer promises: the receiving side rebuilds the file
//! that the sending side read, as long as the decompressing stream undoes what
//! the compressing stream did.

use vstd::prelude::*;

use crate::delta::deflate_token::{
    data_frame, deflated_frames, feed_and_flush, frame_round_trip, inflate_step, run_bytes,
    rx_nearer, rx_read, rx_step, see_chunk, see_stored, step_flush, stored_header, sync_trailer,
    RunModel, RxModel, RxState, RxStep, StreamCall, TxModel, END_FLAG, INFLATE_ROOM, MAX_DATA_COUNT,
};
use crate::delta::match_blocks::{
    op_len, op_start, ops_cover, sum_head_bytes, sum_head_round_trip, DeltaOp,
};
use crate::delta::token::TokenModel;
use crate::io::bytes::WireError;
use crate::checksum::strong::{strong_sum, strong_sums_have_a_length, ChecksumType};
use crate::io::parse::{lemma_parse_byte, lemma_parse_bytes, lemma_parse_int, lemma_parse_shortint};
use crate::io::varint::{enc_int, enc_shortint, NdxPrev};
use crate::pipeline::generator::basis_block;
use crate::pipeline::items::{can_write_index, index_after, index_bytes, index_round_trip};
use crate::pipeline::laws::{
    lemma_copies_agree, lemma_cover_bound, lemma_cover_last, lemma_ops_within, steps_cover,
    sums_tell_apart,
};
use crate::pipeline::receiver::{deflated_file, deflated_reader, parse_answer, parse_file};
use crate::pipeline::sender::{
    deflated_start, deflated_steps, file_output, job_steps, piece_of, JobModel,
};
use crate::protocol::constants::ITEM_TRANSFER;
use crate::protocol::types::SumHead;

verus! {

// ---------------------------------------------------------------------------
// What goes through the streams
// ---------------------------------------------------------------------------

/// What goes through the compressing stream between two flushes.
pub enum Piece {
    /// Literal bytes, whose compressed form is sent.
    Sent(Seq<u8>),
    /// A block of the older version, which the receiving side shows its stream
    /// by itself.
    Shown(Seq<u8>),
}

impl Piece {
    /// The bytes that a piece stands for.
    pub open spec fn plain(self) -> Seq<u8> {
        match self {
            Piece::Sent(b) => b,
            Piece::Shown(b) => b,
        }
    }
}

/// The bytes that some pieces stand for.
pub open spec fn plain_of(ps: Seq<Piece>) -> Seq<u8>
    decreases ps.len(),
{
    if ps.len() == 0 {
        Seq::empty()
    } else {
        plain_of(ps.drop_last()) + ps.last().plain()
    }
}

/// Bytes as a stream holds them that does not compress, behind each other in
/// blocks of at most 65535.
pub open spec fn stored_form(b: Seq<u8>) -> Seq<u8>
    decreases b.len(),
{
    if b.len() == 0 {
        Seq::empty()
    } else {
        let n = if b.len() < 0xffff {
            b.len()
        } else {
            0xffff
        };
        stored_header(n) + b.take(n as int) + stored_form(b.skip(n as int))
    }
}

/// Some chunks as blocks that are not compressed.
pub open spec fn chunk_form(cs: Seq<Seq<u8>>) -> Seq<u8>
    decreases cs.len(),
{
    if cs.len() == 0 {
        Seq::empty()
    } else {
        chunk_form(cs.drop_last()) + stored_header(cs.last().len()) + cs.last()
    }
}

/// Some chunks behind each other.
pub open spec fn joined(cs: Seq<Seq<u8>>) -> Seq<u8>
    decreases cs.len(),
{
    if cs.len() == 0 {
        Seq::empty()
    } else {
        joined(cs.drop_last()) + cs.last()
    }
}

/// The calls of the compressing stream for some pieces, and the bytes that
/// the decompressing stream is to be given for them.
pub open spec fn compressed(ps: Seq<Piece>) -> Result<(Seq<StreamCall>, Seq<u8>), WireError>
    decreases ps.len(),
{
    if ps.len() == 0 {
        Ok((Seq::empty(), Seq::empty()))
    } else {
        match compressed(ps.drop_last()) {
            Err(e) => Err(e),
            Ok((calls, wire)) => match feed_and_flush(calls, ps.last().plain()) {
                Err(e) => Err(e),
                Ok((next, out)) => Ok(
                    (
                        next,
                        wire + match ps.last() {
                            Piece::Sent(_) => out,
                            Piece::Shown(b) => stored_form(b),
                        },
                    ),
                ),
            },
        }
    }
}

/// The bytes that a decompressing stream has taken.
pub open spec fn taken(calls: Seq<StreamCall>) -> Seq<u8>
    decreases calls.len(),
{
    if calls.len() == 0 {
        Seq::empty()
    } else {
        taken(calls.drop_last()) + match inflate_step(calls) {
            Some((n, _)) => if n <= calls.last().0.len() {
                calls.last().0.take(n as int)
            } else {
                Seq::empty()
            },
            None => Seq::empty(),
        }
    }
}

/// The bytes that a decompressing stream has made.
pub open spec fn made(calls: Seq<StreamCall>) -> Seq<u8>
    decreases calls.len(),
{
    if calls.len() == 0 {
        Seq::empty()
    } else {
        made(calls.drop_last()) + match inflate_step(calls) {
            Some((_, out)) => out,
            None => Seq::empty(),
        }
    }
}

/// Whether no call of a decompressing stream failed.
pub open spec fn never_failed(calls: Seq<StreamCall>) -> bool
    decreases calls.len(),
{
    calls.len() == 0 || inflate_step(calls) is Some && never_failed(calls.drop_last())
}

/// Whether the decompressing stream, offered `input`, sees no more than the
/// pieces, then the chunks, then the bytes `tail`, which may only be the head
/// of another chunk.
pub open spec fn offered(
    ps: Seq<Piece>,
    cs: Seq<Seq<u8>>,
    tail: Seq<u8>,
    calls: Seq<StreamCall>,
    input: Seq<u8>,
) -> bool {
    &&& compressed(ps) matches Ok((_, wire)) && (taken(calls) + input).is_prefix_of(
        wire + chunk_form(cs) + tail,
    )
    &&& never_failed(calls)
    &&& forall|i: int| 0 <= i < cs.len() ==> 0 < (#[trigger] cs[i]).len() <= 0xffff
    &&& tail.len() == 0 || exists|n: nat| 0 < n <= 0xffff && tail == #[trigger] stored_header(n)
}

/// Whether the decompressing stream has taken the pieces, the chunks, and the
/// head of a chunk of the length of `input`, and has made all of it.
pub open spec fn at_chunk(
    ps: Seq<Piece>,
    cs: Seq<Seq<u8>>,
    calls: Seq<StreamCall>,
    input: Seq<u8>,
) -> bool {
    &&& offered(ps, cs, stored_header(input.len()), calls, Seq::empty())
    &&& 0 < input.len() <= 0xffff
    &&& compressed(ps) matches Ok((_, wire)) && taken(calls) == wire + chunk_form(cs)
        + stored_header(input.len())
    &&& made(calls) == plain_of(ps) + joined(cs)
}

/// Whether the decompressing stream has taken the pieces, of which the last
/// one is compressed, but for the end of its flush.
pub open spec fn before_trailer(ps: Seq<Piece>, calls: Seq<StreamCall>) -> bool {
    &&& ps.len() > 0 && ps.last() is Sent
    &&& never_failed(calls)
    &&& compressed(ps) matches Ok((_, wire)) && taken(calls) + sync_trailer() == wire
}

/// Whether the decompressing stream undoes what the compressing stream made
/// of some pieces.  Offered what it is to be given, it never fails; it makes
/// the bytes that the pieces stand for, in order and nothing else; it stops
/// short of its input only to hand out what it made; once it makes nothing
/// without input, it has made all that came before the end of the flush; and
/// it hands out the bytes of a chunk at once.
#[verifier::opaque]
pub open spec fn undone_at(ps: Seq<Piece>) -> bool {
    &&& forall|cs: Seq<Seq<u8>>, tail: Seq<u8>, calls: Seq<StreamCall>, input: Seq<u8>, flush: bool|
        #![trigger offered(ps, cs, tail, calls, input), inflate_step(calls.push((input, INFLATE_ROOM as nat, flush)))]
        offered(ps, cs, tail, calls, input) ==> match inflate_step(
            calls.push((input, INFLATE_ROOM as nat, flush)),
        ) {
            Some((n, more)) => n <= input.len() && (made(calls) + more).is_prefix_of(
                plain_of(ps) + joined(cs),
            ) && (more.len() == 0 ==> n == input.len()),
            None => false,
        }
    &&& forall|calls: Seq<StreamCall>| #[trigger]
        before_trailer(ps, calls) && (inflate_step(
            calls.push((Seq::empty(), INFLATE_ROOM as nat, true)),
        ) matches Some((_, more)) && more.len() == 0) ==> made(calls) == plain_of(ps)
    &&& forall|cs: Seq<Seq<u8>>, calls: Seq<StreamCall>, input: Seq<u8>| #[trigger]
        at_chunk(ps, cs, calls, input) ==> inflate_step(
            calls.push((input, INFLATE_ROOM as nat, true)),
        ) == Some((input.len(), input))
}

/// Whether the decompressing stream undoes what the compressing stream made,
/// piece by piece.
pub open spec fn undone(ps: Seq<Piece>) -> bool {
    forall|k: int| 0 <= k <= ps.len() ==> undone_at(#[trigger] ps.take(k))
}

proof fn lemma_call(calls: Seq<StreamCall>, c: StreamCall)
    requires
        never_failed(calls),
        inflate_step(calls.push(c)) matches Some((n, _)) && n <= c.0.len(),
    ensures
        never_failed(calls.push(c)),
        inflate_step(calls.push(c)) matches Some((n, out)) && taken(calls.push(c)) == taken(calls)
            + c.0.take(n as int) && made(calls.push(c)) == made(calls) + out,
{
    assert(calls.push(c).drop_last() =~= calls);
}

// ---------------------------------------------------------------------------
// Literal bytes
// ---------------------------------------------------------------------------

/// Whether a decompressing stream has taken and made some pieces, and no more.
spec fn level(calls: Seq<StreamCall>, ps: Seq<Piece>) -> bool {
    &&& never_failed(calls)
    &&& compressed(ps) matches Ok((_, wire)) && taken(calls) == wire
    &&& made(calls) == plain_of(ps)
}

/// Whether a reader's next flag is the first byte of `x`.
spec fn stands_before(m: RxModel, x: Seq<u8>) -> bool {
    &&& x.len() > 0
    &&& match m.saved {
        Some(f) => f == x[0] && m.input == x.skip(1),
        None => m.input == x,
    }
}

proof fn lemma_go(
    m: RxModel,
    n: RxModel,
    basis: Seq<u8>,
    head: SumHead,
    out: Seq<u8>,
    fuel: nat,
)
    requires
        rx_step(m) == RxStep::Go(n),
        rx_nearer(m, n),
    ensures
        fuel > 0 ==> deflated_file(m, basis, head, out, fuel) == deflated_file(
            n,
            basis,
            head,
            out,
            fuel,
        ),
{
    assert(rx_read(m) == rx_read(n));
    if fuel > 0 {
        reveal_with_fuel(deflated_file, 1);
    }
}

proof fn lemma_give(
    m: RxModel,
    n: RxModel,
    b: Seq<u8>,
    basis: Seq<u8>,
    head: SumHead,
    out: Seq<u8>,
    fuel: nat,
)
    requires
        rx_step(m) == RxStep::Give(Some(TokenModel::Literal(b)), n),
        fuel > 0,
    ensures
        deflated_file(m, basis, head, out, fuel) == deflated_file(
            n,
            basis,
            head,
            out + b,
            (fuel - 1) as nat,
        ),
{
    assert(rx_read(m) == (Ok::<Option<TokenModel>, WireError>(Some(TokenModel::Literal(b))), n));
}

/// Whether a reader is on its way through the frames of a literal: it has the
/// frames of the bytes `b` before it, then `x`, and `done` of the literal is
/// handed out.
spec fn in_literal(
    m: RxModel,
    ps: Seq<Piece>,
    lit: Seq<u8>,
    done: Seq<u8>,
    b: Seq<u8>,
    x: Seq<u8>,
) -> bool {
    &&& ps.len() > 0 && ps.last() == Piece::Sent(lit)
    &&& never_failed(m.calls)
    &&& compressed(ps) matches Ok((_, wire)) && taken(m.calls) + m.cbuf + b + sync_trailer() == wire
    &&& made(m.calls) == plain_of(ps.drop_last()) + done
    &&& done.is_prefix_of(lit)
    &&& x.len() > 0 && x[0] as int / 64 != 1
    &&& match m.state {
        RxState::Inflating => m.cbuf.len() > 0 && m.saved is None && m.input == deflated_frames(b)
            + x,
        RxState::Inflated => m.cbuf.len() == 0 && match m.saved {
            None => m.input == deflated_frames(b) + x,
            Some(f) => b.len() == 0 && f == x[0] && m.input == x.skip(1),
        },
        _ => false,
    }
}

proof fn lemma_offer(ps: Seq<Piece>, calls: Seq<StreamCall>, input: Seq<u8>, behind: Seq<u8>, flush: bool)
    requires
        undone_at(ps),
        never_failed(calls),
        compressed(ps) matches Ok((_, wire)) && taken(calls) + input + behind == wire,
    ensures
        match inflate_step(calls.push((input, INFLATE_ROOM as nat, flush))) {
            Some((n, more)) => n <= input.len() && (made(calls) + more).is_prefix_of(plain_of(ps))
                && (more.len() == 0 ==> n == input.len()),
            None => false,
        },
{
    reveal(undone_at);
    let none = Seq::<Seq<u8>>::empty();
    let tail = Seq::<u8>::empty();
    let wire = compressed(ps)->Ok_0.1;
    assert(wire + chunk_form(none) + tail =~= wire);
    assert(taken(calls) + input =~= wire.subrange(0, (taken(calls) + input).len() as int));
    assert(offered(ps, none, tail, calls, input));
    assert(plain_of(ps) + joined(none) =~= plain_of(ps));
}

/// A prefix of the pieces' bytes behind the bytes of all but the last piece is
/// a prefix of the last.
proof fn lemma_done(before: Seq<u8>, lit: Seq<u8>, done: Seq<u8>, more: Seq<u8>)
    requires
        (before + done + more).is_prefix_of(before + lit),
    ensures
        (done + more).is_prefix_of(lit),
        (done + more).len() == lit.len() ==> done + more == lit,
{
    let all = before + done + more;
    assert(all.len() <= (before + lit).len());
    assert forall|i: int| 0 <= i < (done + more).len() implies (done + more)[i] == lit[i] by {
        assert(all[before.len() + i] == (done + more)[i]);
        assert((before + lit).subrange(0, all.len() as int)[before.len() + i] == lit[i]);
    }
    assert(done + more =~= lit.subrange(0, (done + more).len() as int));
    if (done + more).len() == lit.len() {
        assert(done + more =~= lit);
    }
}

/// A literal is handed out in full, and the reader then stands behind its
/// frames and is level with the compressing stream.
proof fn lemma_literal(
    m: RxModel,
    ps: Seq<Piece>,
    lit: Seq<u8>,
    done: Seq<u8>,
    b: Seq<u8>,
    x: Seq<u8>,
    basis: Seq<u8>,
    head: SumHead,
    out: Seq<u8>,
    fuel: nat,
) -> (r: (RxModel, nat))
    requires
        undone_at(ps),
        in_literal(m, ps, lit, done, b, x),
        fuel > lit.len() - done.len(),
    ensures
        r.0.state == RxState::Idle,
        r.0.token == m.token,
        stands_before(r.0, x),
        level(r.0.calls, ps),
        r.1 <= lit.len() - done.len(),
        deflated_file(m, basis, head, out, fuel) == deflated_file(
            r.0,
            basis,
            head,
            out + lit.skip(done.len() as int),
            (fuel - r.1) as nat,
        ),
    decreases
        m.cbuf.len() + b.len(),
        lit.len() - done.len(),
        if m.state == RxState::Inflated {
            1int
        } else {
            0int
        },
{
    reveal(undone_at);
    let before = plain_of(ps.drop_last());
    let wire = compressed(ps)->Ok_0.1;
    if m.state == RxState::Inflating {
        let call = (m.cbuf, INFLATE_ROOM as nat, false);
        let next = m.calls.push(call);
        assert(taken(m.calls) + m.cbuf + (b + sync_trailer()) =~= wire);
        lemma_offer(ps, m.calls, m.cbuf, b + sync_trailer(), false);
        lemma_call(m.calls, call);
        let (n, more) = inflate_step(next)->0;
        let left = m.cbuf.skip(n as int);
        let m2 = RxModel {
            state: if left.len() == 0 {
                RxState::Inflated
            } else {
                RxState::Inflating
            },
            cbuf: left,
            calls: next,
            ..m
        };
        assert(m.cbuf.take(n as int) + left =~= m.cbuf);
        assert(taken(next) + left + b + sync_trailer() =~= wire);
        assert(made(m.calls) + more =~= before + done + more);
        lemma_done(before, lit, done, more);
        assert(made(next) =~= before + (done + more));
        if more.len() > 0 {
            assert(rx_step(m) == RxStep::Give(Some(TokenModel::Literal(more)), m2));
            lemma_give(m, m2, more, basis, head, out, fuel);
            let r = lemma_literal(
                m2,
                ps,
                lit,
                done + more,
                b,
                x,
                basis,
                head,
                out + more,
                (fuel - 1) as nat,
            );
            assert(out + more + lit.skip((done + more).len() as int) =~= out + lit.skip(
                done.len() as int,
            )) by {
                assert forall|i: int| 0 <= i < more.len() implies more[i] == lit[done.len() + i] by {
                    assert((done + more)[done.len() + i] == more[i]);
                }
            }
            (r.0, r.1 + 1)
        } else {
            assert(done + more =~= done);
            assert(rx_step(m) == RxStep::Go(m2));
            assert(rx_nearer(m, m2));
            lemma_go(m, m2, basis, head, out, fuel);
            lemma_literal(m2, ps, lit, done, b, x, basis, head, out, fuel)
        }
    } else if b.len() > 0 {
        let f = if b.len() <= MAX_DATA_COUNT {
            b
        } else {
            b.take(MAX_DATA_COUNT as int)
        };
        let left = b.skip(f.len() as int);
        assert(b =~= f + left);
        assert(deflated_frames(b) =~= data_frame(f) + deflated_frames(left)) by {
            if b.len() <= MAX_DATA_COUNT {
                assert(left =~= Seq::<u8>::empty());
            }
        }
        assert(m.input =~= data_frame(f) + (deflated_frames(left) + x));
        frame_round_trip(m, f, deflated_frames(left) + x);
        let m2 = RxModel {
            state: RxState::Inflating,
            cbuf: f,
            input: deflated_frames(left) + x,
            ..m
        };
        assert(taken(m.calls) + f + left + sync_trailer() =~= taken(m.calls) + m.cbuf + b
            + sync_trailer());
        assert(rx_nearer(m, m2));
        lemma_go(m, m2, basis, head, out, fuel);
        lemma_literal(m2, ps, lit, done, left, x, basis, head, out, fuel)
    } else {
        let flag = x[0];
        let rest = x.skip(1);
        assert(deflated_frames(b) + x =~= x);
        assert(x =~= seq![flag] + rest);
        lemma_parse_byte(flag, rest);
        let none = Seq::<u8>::empty();
        let call = (none, INFLATE_ROOM as nat, true);
        let c1 = m.calls.push(call);
        assert(taken(m.calls) + none + sync_trailer() =~= taken(m.calls) + m.cbuf + b
            + sync_trailer());
        lemma_offer(ps, m.calls, none, sync_trailer(), true);
        lemma_call(m.calls, call);
        let (n, more) = inflate_step(c1)->0;
        assert(none.take(n as int) =~= none);
        assert(taken(c1) =~= taken(m.calls));
        assert(made(m.calls) + more =~= before + done + more);
        lemma_done(before, lit, done, more);
        assert(made(c1) =~= before + (done + more));
        if more.len() > 0 {
            let m2 = RxModel { saved: Some(flag), calls: c1, input: rest, ..m };
            assert(rx_step(m) == step_flush(m, flag, rest));
            assert(rx_step(m) == RxStep::Give(Some(TokenModel::Literal(more)), m2));
            lemma_give(m, m2, more, basis, head, out, fuel);
            assert(taken(c1) + m2.cbuf + b + sync_trailer() =~= wire);
            let r = lemma_literal(
                m2,
                ps,
                lit,
                done + more,
                b,
                x,
                basis,
                head,
                out + more,
                (fuel - 1) as nat,
            );
            assert(out + more + lit.skip((done + more).len() as int) =~= out + lit.skip(
                done.len() as int,
            )) by {
                assert forall|i: int| 0 <= i < more.len() implies more[i] == lit[done.len() + i] by {
                    assert((done + more)[done.len() + i] == more[i]);
                }
            }
            (r.0, r.1 + 1)
        } else {
            assert(taken(m.calls) + sync_trailer() =~= wire);
            assert(before_trailer(ps, m.calls));
            assert(made(m.calls) == plain_of(ps));
            assert(plain_of(ps) == before + lit);
            assert((before + done).len() == (before + lit).len());
            assert(done =~= lit);
            assert(done + more =~= done);
            let call2 = (sync_trailer(), INFLATE_ROOM as nat, true);
            let c2 = c1.push(call2);
            assert(taken(c1) + sync_trailer() + none =~= wire);
            lemma_offer(ps, c1, sync_trailer(), none, true);
            lemma_call(c1, call2);
            let (n2, more2) = inflate_step(c2)->0;
            assert((made(c1) + more2).len() <= plain_of(ps).len());
            assert(more2.len() == 0);
            assert(n2 == 4);
            assert(sync_trailer().take(4) =~= sync_trailer());
            assert(taken(c2) =~= wire);
            assert(made(c2) =~= plain_of(ps));
            let m2 = RxModel {
                state: RxState::Idle,
                saved: Some(flag),
                calls: c2,
                input: rest,
                ..m
            };
            assert(rx_step(m) == step_flush(m, flag, rest));
            assert(rx_step(m) == RxStep::Go(m2));
            assert(rx_nearer(m, m2));
            lemma_go(m, m2, basis, head, out, fuel);
            assert(out + lit.skip(done.len() as int) =~= out);
            (m2, 0)
        }
    }
}

// ---------------------------------------------------------------------------
// Blocks
// ---------------------------------------------------------------------------

proof fn lemma_see(calls: Seq<StreamCall>, ps: Seq<Piece>, cs: Seq<Seq<u8>>, b: Seq<u8>)
    requires
        undone_at(ps),
        never_failed(calls),
        compressed(ps) matches Ok((_, wire)) && taken(calls) == wire + chunk_form(cs),
        made(calls) == plain_of(ps) + joined(cs),
        forall|i: int| 0 <= i < cs.len() ==> 0 < (#[trigger] cs[i]).len() <= 0xffff,
    ensures
        see_stored(calls, b) matches Ok(c) && never_failed(c) && taken(c) == compressed(ps)->Ok_0.1
            + chunk_form(cs) + stored_form(b) && made(c) == plain_of(ps) + joined(cs) + b,
    decreases b.len(),
{
    reveal(undone_at);
    let wire = compressed(ps)->Ok_0.1;
    if b.len() == 0 {
        assert(wire + chunk_form(cs) + stored_form(b) =~= wire + chunk_form(cs));
        assert(plain_of(ps) + joined(cs) + b =~= plain_of(ps) + joined(cs));
    } else {
        let n = if b.len() < 0xffff {
            b.len()
        } else {
            0xffff
        };
        let chunk = b.take(n as int);
        let h = stored_header(n);
        let none = Seq::<u8>::empty();
        let call1 = (h, INFLATE_ROOM as nat, true);
        let c1 = calls.push(call1);
        assert(taken(calls) + h =~= (wire + chunk_form(cs) + h).subrange(
            0,
            (taken(calls) + h).len() as int,
        ));
        assert(offered(ps, cs, h, calls, h));
        assert(inflate_step(c1) is Some);
        let (k, more) = inflate_step(c1)->0;
        assert((made(calls) + more).len() <= made(calls).len());
        assert(more.len() == 0);
        assert(k == 5);
        lemma_call(calls, call1);
        assert(h.take(5) =~= h);
        assert(made(c1) =~= made(calls));
        assert(taken(c1) + none =~= taken(c1));
        assert(taken(c1) =~= (wire + chunk_form(cs) + h).subrange(0, taken(c1).len() as int));
        assert(offered(ps, cs, h, c1, none));
        assert(at_chunk(ps, cs, c1, chunk));
        let call2 = (chunk, INFLATE_ROOM as nat, true);
        let c2 = c1.push(call2);
        assert(inflate_step(c2) == Some((chunk.len(), chunk)));
        lemma_call(c1, call2);
        assert(chunk.take(chunk.len() as int) =~= chunk);
        assert(chunk.skip(chunk.len() as int) =~= none);
        assert(see_chunk(c1, chunk) == Ok::<Seq<StreamCall>, WireError>(c2)) by {
            reveal_with_fuel(see_chunk, 2);
        }
        let ds = cs.push(chunk);
        assert(ds.drop_last() =~= cs);
        assert(taken(c2) =~= wire + chunk_form(ds));
        assert(made(c2) =~= plain_of(ps) + joined(ds));
        let rest = b.skip(n as int);
        lemma_see(c2, ps, ds, rest);
        assert(wire + chunk_form(ds) + stored_form(rest) =~= wire + chunk_form(cs) + stored_form(
            b,
        ));
        assert(plain_of(ps) + joined(ds) + rest =~= plain_of(ps) + joined(cs) + b) by {
            assert(b =~= chunk + rest);
        }
    }
}

/// Showing a block keeps a stream level.
proof fn lemma_shown_block(calls: Seq<StreamCall>, ps: Seq<Piece>, b: Seq<u8>)
    requires
        undone_at(ps),
        level(calls, ps),
        compressed(ps.push(Piece::Shown(b))) is Ok,
    ensures
        see_stored(calls, b) matches Ok(c) && level(c, ps.push(Piece::Shown(b))),
{
    let none = Seq::<Seq<u8>>::empty();
    let wire = compressed(ps)->Ok_0.1;
    assert(wire + chunk_form(none) =~= wire);
    assert(plain_of(ps) + joined(none) =~= plain_of(ps));
    lemma_see(calls, ps, none, b);
    let more = ps.push(Piece::Shown(b));
    assert(more.drop_last() =~= ps);
}

/// The pieces for some blocks.
pub open spec fn shown(bs: Seq<Seq<u8>>) -> Seq<Piece> {
    Seq::new(bs.len(), |i: int| Piece::Shown(bs[i]))
}

proof fn lemma_compressed_prefix(ps: Seq<Piece>, k: int)
    requires
        compressed(ps) is Ok,
        0 <= k <= ps.len(),
    ensures
        compressed(ps.take(k)) is Ok,
    decreases ps.len() - k,
{
    if k == ps.len() {
        assert(ps.take(k) =~= ps);
    } else {
        lemma_compressed_prefix(ps, k + 1);
        assert(ps.take(k + 1).drop_last() =~= ps.take(k));
    }
}

proof fn lemma_joined_front(bs: Seq<Seq<u8>>)
    requires
        bs.len() > 0,
    ensures
        joined(bs) == bs[0] + joined(bs.skip(1)),
    decreases bs.len(),
{
    if bs.len() == 1 {
        reveal_with_fuel(joined, 2);
        assert(bs.drop_last() =~= Seq::<Seq<u8>>::empty());
        assert(bs.skip(1) =~= Seq::<Seq<u8>>::empty());
        assert(joined(bs) =~= bs[0] + joined(bs.skip(1)));
    } else {
        lemma_joined_front(bs.drop_last());
        assert(bs.skip(1).drop_last() =~= bs.drop_last().skip(1));
        assert(joined(bs) =~= bs[0] + joined(bs.skip(1)));
    }
}

/// Whether the blocks `bs` are those of the older version from `first` on.
spec fn blocks_from(bs: Seq<Seq<u8>>, first: int, basis: Seq<u8>, head: SumHead) -> bool {
    forall|j: int| 0 <= j < bs.len() ==> #[trigger] bs[j] == basis_block(basis, head, first + j)
}

/// A reader that was given a reference to a block goes on behind the block.
proof fn lemma_take_block(
    m: RxModel,
    n: RxModel,
    token: i32,
    ps: Seq<Piece>,
    b: Seq<u8>,
    basis: Seq<u8>,
    head: SumHead,
    out: Seq<u8>,
    fuel: nat,
) -> (r: RxModel)
    requires
        rx_step(m) == RxStep::Give(Some(TokenModel::BlockMatch(token)), n),
        token >= 0,
        head.blength >= 0,
        head.remainder >= 0,
        b == basis_block(basis, head, token as int),
        undone_at(ps),
        level(n.calls, ps),
        compressed(ps.push(Piece::Shown(b))) is Ok,
        fuel > 0,
    ensures
        level(r.calls, ps.push(Piece::Shown(b))),
        r == (RxModel { calls: r.calls, ..n }),
        deflated_file(m, basis, head, out, fuel) == deflated_file(
            r,
            basis,
            head,
            out + b,
            (fuel - 1) as nat,
        ),
{
    lemma_shown_block(n.calls, ps, b);
    assert(rx_read(m) == (
        Ok::<Option<TokenModel>, WireError>(Some(TokenModel::BlockMatch(token))),
        n,
    ));
    RxModel { calls: see_stored(n.calls, b)->Ok_0, ..n }
}

/// The rest of a run of blocks is handed out, and the reader stays level.
proof fn lemma_running_blocks(
    m: RxModel,
    ps: Seq<Piece>,
    bs: Seq<Seq<u8>>,
    basis: Seq<u8>,
    head: SumHead,
    out: Seq<u8>,
    fuel: nat,
) -> (r: RxModel)
    requires
        m.state == RxState::Running,
        m.saved is None,
        0 < bs.len() == m.run,
        0 <= m.token,
        m.token + bs.len() <= i32::MAX,
        head.blength >= 0,
        head.remainder >= 0,
        blocks_from(bs, m.token + 1, basis, head),
        level(m.calls, ps),
        compressed(ps + shown(bs)) is Ok,
        undone(ps + shown(bs)),
        fuel > bs.len(),
    ensures
        r.state == RxState::Idle,
        r.saved is None,
        r.input == m.input,
        r.token == m.token + bs.len(),
        level(r.calls, ps + shown(bs)),
        deflated_file(m, basis, head, out, fuel) == deflated_file(
            r,
            basis,
            head,
            out + joined(bs),
            (fuel - bs.len()) as nat,
        ),
    decreases bs.len(),
{
    let all = ps + shown(bs);
    let b = bs[0];
    let more = ps.push(Piece::Shown(b));
    let rest = bs.skip(1);
    assert(all.take(ps.len() as int) =~= ps);
    assert(all.take((ps.len() + 1) as int) =~= more);
    lemma_compressed_prefix(all, (ps.len() + 1) as int);
    let token = (m.token + 1) as i32;
    let n = RxModel {
        token,
        run: (m.run - 1) as i32,
        state: if m.run == 1 {
            RxState::Idle
        } else {
            RxState::Running
        },
        ..m
    };
    assert(rx_step(m) == RxStep::Give(Some(TokenModel::BlockMatch(token)), n));
    assert(bs[0] == basis_block(basis, head, m.token + 1));
    let m2 = lemma_take_block(m, n, token, ps, b, basis, head, out, fuel);
    lemma_joined_front(bs);
    assert(more + shown(rest) =~= all);
    if bs.len() == 1 {
        assert(rest =~= Seq::<Seq<u8>>::empty());
        assert(more =~= all);
        assert(out + joined(bs) =~= out + b);
        m2
    } else {
        assert(blocks_from(rest, m2.token + 1, basis, head)) by {
            assert forall|j: int| 0 <= j < rest.len() implies #[trigger] rest[j] == basis_block(
                basis,
                head,
                m2.token + 1 + j,
            ) by {
                assert(rest[j] == bs[j + 1]);
            }
        }
        let r = lemma_running_blocks(m2, more, rest, basis, head, out + b, (fuel - 1) as nat);
        assert(out + b + joined(rest) =~= out + joined(bs));
        r
    }
}

/// A run of blocks is handed out, and the reader stays level.
proof fn lemma_run(
    m: RxModel,
    ps: Seq<Piece>,
    bs: Seq<Seq<u8>>,
    start: i32,
    last: i32,
    x: Seq<u8>,
    basis: Seq<u8>,
    head: SumHead,
    out: Seq<u8>,
    fuel: nat,
) -> (r: RxModel)
    requires
        m.state == RxState::Idle,
        0 <= m.token,
        0 <= start <= last < start + 65536,
        bs.len() == last - start + 1,
        stands_before(m, run_bytes(start as int, last as int, m.token as int) + x),
        head.blength >= 0,
        head.remainder >= 0,
        blocks_from(bs, start as int, basis, head),
        level(m.calls, ps),
        compressed(ps + shown(bs)) is Ok,
        undone(ps + shown(bs)),
        fuel > bs.len(),
    ensures
        r.state == RxState::Idle,
        r.saved is None,
        r.input == x,
        r.token == last,
        level(r.calls, ps + shown(bs)),
        deflated_file(m, basis, head, out, fuel) == deflated_file(
            r,
            basis,
            head,
            out + joined(bs),
            (fuel - bs.len()) as nat,
        ),
{
    let d = start - m.token;
    let n = last - start;
    let count: Seq<u8> = if n == 0 {
        Seq::empty()
    } else {
        seq![(n % 256) as u8, (n / 256) as u8]
    };
    let bytes = run_bytes(start as int, last as int, m.token as int);
    let flag = bytes[0];
    let index: Seq<u8> = if 0 <= d <= 63 {
        Seq::empty()
    } else {
        enc_int(start)
    };
    assert(bytes + x =~= seq![flag] + (index + (count + x)));
    assert((bytes + x).skip(1) =~= index + (count + x));
    lemma_parse_byte(flag, index + (count + x));
    assert(m.saved is None ==> m.input == seq![flag] + (index + (count + x)));
    if 0 <= d <= 63 {
        assert(index + (count + x) =~= count + x);
    } else {
        lemma_parse_int(start, count + x);
    }
    let all = ps + shown(bs);
    let b = bs[0];
    let more = ps.push(Piece::Shown(b));
    assert(all.take(ps.len() as int) =~= ps);
    assert(all.take((ps.len() + 1) as int) =~= more);
    lemma_compressed_prefix(all, (ps.len() + 1) as int);
    lemma_joined_front(bs);
    assert(bs[0] == basis_block(basis, head, start + 0));
    if n == 0 {
        assert(count + x =~= x);
        let next = RxModel { token: start, saved: None, input: x, ..m };
        assert(rx_step(m) == RxStep::Give(Some(TokenModel::BlockMatch(start)), next));
        let r = lemma_take_block(m, next, start, ps, b, basis, head, out, fuel);
        assert(bs.skip(1) =~= Seq::<Seq<u8>>::empty());
        assert(more =~= all);
        assert(out + joined(bs) =~= out + b);
        r
    } else {
        lemma_parse_bytes(count, x);
        assert(count[0] + count[1] * 256 == n);
        let next = RxModel {
            state: RxState::Running,
            token: start,
            run: n as i32,
            saved: None,
            input: x,
            ..m
        };
        assert(rx_step(m) == RxStep::Give(Some(TokenModel::BlockMatch(start)), next));
        let m2 = lemma_take_block(m, next, start, ps, b, basis, head, out, fuel);
        let rest = bs.skip(1);
        assert(more + shown(rest) =~= all);
        assert(blocks_from(rest, m2.token + 1, basis, head)) by {
            assert forall|j: int| 0 <= j < rest.len() implies #[trigger] rest[j] == basis_block(
                basis,
                head,
                m2.token + 1 + j,
            ) by {
                assert(rest[j] == bs[j + 1]);
            }
        }
        let r = lemma_running_blocks(m2, more, rest, basis, head, out + b, (fuel - 1) as nat);
        assert(out + b + joined(rest) =~= out + joined(bs));
        r
    }
}

// ---------------------------------------------------------------------------
// A whole file
// ---------------------------------------------------------------------------

/// The piece for literal bytes, if there are any.
pub open spec fn sent(pending: Seq<u8>) -> Seq<Piece> {
    if pending.len() == 0 {
        Seq::empty()
    } else {
        seq![Piece::Sent(pending)]
    }
}

/// The pieces of some steps, and the literal bytes that are in none of them yet.
pub open spec fn step_pieces(ops: Seq<DeltaOp>, data: Seq<u8>, blength: int) -> (
    Seq<Piece>,
    Seq<u8>,
)
    decreases ops.len(),
{
    if ops.len() == 0 {
        (Seq::empty(), Seq::empty())
    } else {
        let (ps, pending) = step_pieces(ops.drop_last(), data, blength);
        match ops.last() {
            DeltaOp::Literal { offset, len } => (
                ps,
                pending + piece_of(data, offset as int, len as int),
            ),
            DeltaOp::Match { block_idx: _, offset } => (
                ps + sent(pending) + seq![Piece::Shown(piece_of(data, offset as int, blength))],
                Seq::empty(),
            ),
        }
    }
}

/// The pieces of a whole file.
pub open spec fn file_pieces(ops: Seq<DeltaOp>, data: Seq<u8>, blength: int) -> Seq<Piece> {
    step_pieces(ops, data, blength).0 + sent(step_pieces(ops, data, blength).1)
}

/// A file on its way: what was written before it, its steps, the older
/// version on the receiving side, all that is written, and what follows.
ghost struct Flow {
    output: Seq<u8>,
    ops: Seq<DeltaOp>,
    data: Seq<u8>,
    blength: int,
    basis: Seq<u8>,
    head: SumHead,
    all: Seq<u8>,
    rest: Seq<u8>,
}

impl Flow {
    /// The writer after `k` steps.
    spec fn writer(self, k: int) -> Result<TxModel, WireError> {
        deflated_steps(deflated_start(self.output), self.ops.take(k), self.data, self.blength)
    }

    /// The pieces after `k` steps.
    spec fn pieces(self, k: int) -> (Seq<Piece>, Seq<u8>) {
        step_pieces(self.ops.take(k), self.data, self.blength)
    }

    /// All the pieces.
    spec fn total(self) -> Seq<Piece> {
        file_pieces(self.ops, self.data, self.blength)
    }

    /// Whether the file is written whole, its blocks are those of the older
    /// version, and the decompressing stream undoes the compressing one.
    spec fn wf(self) -> bool {
        &&& self.writer(self.ops.len() as int) matches Ok(w) && w.finished() == Ok::<
            Seq<u8>,
            WireError,
        >(self.all)
        &&& undone(self.total())
        &&& self.head.blength >= 0
        &&& self.head.remainder >= 0
        &&& forall|i: int|
            0 <= i < self.ops.len() ==> match #[trigger] self.ops[i] {
                DeltaOp::Literal { offset: _, len: _ } => true,
                DeltaOp::Match { block_idx, offset } => block_idx < i32::MAX && piece_of(
                    self.data,
                    offset as int,
                    self.blength,
                ) == basis_block(self.basis, self.head, block_idx as int) && piece_of(
                    self.data,
                    offset as int,
                    self.blength,
                ).len() > 0,
            }
    }

    /// What is still to be written after `k` steps.
    spec fn left(self, k: int) -> Seq<u8> {
        self.all.skip(self.writer(k)->Ok_0.output.len() as int)
    }
}

proof fn lemma_steps_ok(f: Flow, k: int)
    requires
        f.wf(),
        0 <= k <= f.ops.len(),
    ensures
        f.writer(k) is Ok,
        f.pieces(k).0.len() <= f.pieces(f.ops.len() as int).0.len(),
        f.pieces(k).0 == f.pieces(f.ops.len() as int).0.take(f.pieces(k).0.len() as int),
    decreases f.ops.len() - k,
{
    if k < f.ops.len() {
        lemma_steps_ok(f, k + 1);
        let now = f.ops.take(k + 1);
        assert(now.drop_last() =~= f.ops.take(k));
        let all = f.pieces(f.ops.len() as int).0;
        let a = f.pieces(k).0;
        let b = f.pieces(k + 1).0;
        assert(a =~= b.take(a.len() as int));
        assert(a =~= all.take(a.len() as int));
    }
}

proof fn lemma_writer(f: Flow, k: int)
    requires
        f.wf(),
        0 <= k <= f.ops.len(),
    ensures
        f.writer(k) matches Ok(w) && w.pending == f.pieces(k).1 && w.run.counts_from_zero() && (compressed(
            f.pieces(k).0,
        ) matches Ok((calls, _)) && calls == w.calls) && (k == 0 ==> w.output == f.output),
    decreases k,
{
    lemma_steps_ok(f, k);
    if k > 0 {
        lemma_writer(f, k - 1);
        lemma_steps_ok(f, k - 1);
        let now = f.ops.take(k);
        assert(now.drop_last() =~= f.ops.take(k - 1));
        assert(now.last() == f.ops[k - 1]);
        let w = f.writer(k - 1)->Ok_0;
        let (ps, pending) = f.pieces(k - 1);
        match f.ops[k - 1] {
            DeltaOp::Literal { offset, len } => {},
            DeltaOp::Match { block_idx, offset } => {
                let b = piece_of(f.data, offset as int, f.blength);
                let mid = ps + sent(pending);
                if pending.len() > 0 {
                    assert(mid.drop_last() =~= ps);
                } else {
                    assert(mid =~= ps);
                }
                let m = w.flushed()->Ok_0;
                assert(compressed(mid) is Ok && compressed(mid)->Ok_0.0 == m.calls);
                let end = mid + seq![Piece::Shown(b)];
                assert(end.drop_last() =~= mid);
            },
        }
    }
}

/// What a step writes.
proof fn lemma_step_writes(f: Flow, k: int)
    requires
        f.wf(),
        0 <= k < f.ops.len(),
    ensures
        f.writer(k) matches Ok(w) && f.writer(k + 1) matches Ok(v) && match f.ops[k] {
            DeltaOp::Literal { offset, len } => v == (TxModel {
                pending: w.pending + piece_of(f.data, offset as int, len as int),
                ..w
            }),
            DeltaOp::Match { block_idx, offset } => {
                &&& v.pending.len() == 0
                &&& if w.pending.len() == 0 {
                    &&& v.output == w.output + w.run.writes(block_idx as i32)
                    &&& v.run == w.run.after(block_idx as i32)
                } else {
                    &&& compressed(f.pieces(k).0 + sent(w.pending)) matches Ok((_, wire)) && (
                    compressed(f.pieces(k).0) matches Ok((_, before)) && exists|b: Seq<u8>|
                        wire == before + b + sync_trailer() && v.output == w.output
                            + w.run.closing() + #[trigger] deflated_frames(b))
                    &&& v.run == (RunModel {
                        open: true,
                        start: block_idx as i32,
                        last: block_idx as i32,
                        prev: w.run.closed().prev,
                    })
                }
            },
        },
{
    lemma_writer(f, k);
    lemma_writer(f, k + 1);
    let now = f.ops.take(k + 1);
    assert(now.drop_last() =~= f.ops.take(k));
    assert(now.last() == f.ops[k]);
    let w = f.writer(k)->Ok_0;
    let v = f.writer(k + 1)->Ok_0;
    match f.ops[k] {
        DeltaOp::Literal { offset, len } => {},
        DeltaOp::Match { block_idx, offset } => {
            if w.pending.len() > 0 {
                lemma_flush_bytes(f.pieces(k).0, w);
                let m = w.flushed()->Ok_0;
                assert(m.output + m.run.writes(block_idx as i32) =~= m.output);
            }
        },
    }
}

/// What sending the literal bytes writes.
proof fn lemma_flush_bytes(ps: Seq<Piece>, w: TxModel)
    requires
        w.pending.len() > 0,
        compressed(ps) matches Ok((calls, _)) && calls == w.calls,
        w.flushed() is Ok,
    ensures
        compressed(ps + sent(w.pending)) matches Ok((_, wire)) && (compressed(ps) matches Ok(
            (_, before),
        ) && exists|b: Seq<u8>|
            wire == before + b + sync_trailer() && w.flushed()->Ok_0.output == w.output
                + w.run.closing() + #[trigger] deflated_frames(b)),
{
    let more = ps + sent(w.pending);
    assert(more.drop_last() =~= ps);
    let out = feed_and_flush(w.calls, w.pending)->Ok_0.1;
    let b = out.take(out.len() - 4);
    assert(out =~= b + sync_trailer());
    let before = compressed(ps)->Ok_0.1;
    let wire = compressed(more)->Ok_0.1;
    assert(wire =~= before + b + sync_trailer());
    assert(w.flushed()->Ok_0.output == w.output + w.run.closing() + deflated_frames(b));
}

/// What the end of a file writes.
proof fn lemma_end_writes(f: Flow)
    requires
        f.wf(),
    ensures
        f.writer(f.ops.len() as int) matches Ok(w) && if w.pending.len() == 0 {
            f.all == w.output + w.run.closing() + seq![END_FLAG]
        } else {
            &&& compressed(f.total()) matches Ok((_, wire)) && (compressed(
                f.pieces(f.ops.len() as int).0,
            ) matches Ok((_, before)) && exists|b: Seq<u8>|
                wire == before + b + sync_trailer() && f.all == w.output + w.run.closing()
                    + #[trigger] deflated_frames(b) + seq![END_FLAG])
        },
{
    let n = f.ops.len() as int;
    lemma_writer(f, n);
    assert(f.ops.take(n) =~= f.ops);
    let w = f.writer(n)->Ok_0;
    let c = TxModel { run: w.run.closed(), output: w.output + w.run.closing(), ..w };
    if w.pending.len() > 0 {
        lemma_flush_bytes(f.pieces(n).0, c);
        let wire = compressed(f.total())->Ok_0.1;
        let before = compressed(f.pieces(n).0)->Ok_0.1;
        let b = choose|b: Seq<u8>|
            wire == before + b + sync_trailer() && c.flushed()->Ok_0.output == c.output
                + c.run.closing() + #[trigger] deflated_frames(b);
        assert(f.all =~= w.output + w.run.closing() + deflated_frames(b) + seq![END_FLAG]);
    } else {
        assert(f.all =~= w.output + w.run.closing() + seq![END_FLAG]);
    }
}

/// What is written stays.
proof fn lemma_output_stays(f: Flow, k: int)
    requires
        f.wf(),
        0 <= k <= f.ops.len(),
    ensures
        f.writer(k) matches Ok(w) && w.output.is_prefix_of(f.all) && f.all == w.output + f.left(k),
    decreases f.ops.len() - k,
{
    lemma_steps_ok(f, k);
    let w = f.writer(k)->Ok_0;
    if k == f.ops.len() {
        lemma_end_writes(f);
    } else {
        lemma_output_stays(f, k + 1);
        lemma_step_writes(f, k);
        let v = f.writer(k + 1)->Ok_0;
        assert(w.output =~= v.output.take(w.output.len() as int));
    }
    assert(w.output =~= f.all.subrange(0, w.output.len() as int));
    assert(f.all =~= w.output + f.left(k));
}

proof fn lemma_left_after(all: Seq<u8>, a: Seq<u8>, added: Seq<u8>)
    requires
        (a + added).is_prefix_of(all),
    ensures
        all.skip(a.len() as int) == added + all.skip((a + added).len() as int),
{
    let both = a + added;
    assert forall|i: int| 0 <= i < added.len() implies all[a.len() + i] == added[i] by {
        assert(both[a.len() + i] == added[i]);
        assert(all.subrange(0, both.len() as int)[a.len() + i] == all[a.len() + i]);
    }
    assert(all.skip(a.len() as int) =~= added + all.skip(both.len() as int));
}

/// Behind a run that is begun, the next thing that is written is no frame.
proof fn lemma_next_flag(f: Flow, k: int)
    requires
        f.wf(),
        0 <= k <= f.ops.len(),
        f.writer(k) matches Ok(w) && w.run.open,
    ensures
        f.left(k).len() > 0,
        f.left(k)[0] as int / 64 != 1,
    decreases f.ops.len() - k,
{
    lemma_writer(f, k);
    lemma_output_stays(f, k);
    let w = f.writer(k)->Ok_0;
    let closing = run_bytes(w.run.start as int, w.run.last as int, w.run.prev as int);
    assert(closing.len() > 0 && closing[0] as int / 64 != 1);
    if k == f.ops.len() {
        lemma_end_writes(f);
        assert(f.all.skip(w.output.len() as int)[0] == closing[0]);
    } else {
        lemma_step_writes(f, k);
        lemma_output_stays(f, k + 1);
        let v = f.writer(k + 1)->Ok_0;
        match f.ops[k] {
            DeltaOp::Literal { offset, len } => {
                lemma_next_flag(f, k + 1);
            },
            DeltaOp::Match { block_idx, offset } => {
                if w.pending.len() == 0 && w.run.continues(block_idx as i32) {
                    assert(v.output =~= w.output);
                    lemma_next_flag(f, k + 1);
                } else {
                    assert(v.output[w.output.len() as int] == closing[0]);
                    assert(f.all[w.output.len() as int] == v.output[w.output.len() as int]) by {
                        assert(v.output == f.all.subrange(0, v.output.len() as int));
                    }
                }
            },
        }
    }
}

/// A run that ends is read, if there is one.
proof fn lemma_close(
    f: Flow,
    run: RunModel,
    m: RxModel,
    ps: Seq<Piece>,
    bs: Seq<Seq<u8>>,
    x: Seq<u8>,
    out: Seq<u8>,
    fuel: nat,
) -> (r: RxModel)
    requires
        f.wf(),
        run.counts_from_zero(),
        m.state == RxState::Idle,
        m.token == run.prev,
        reads_run(f, run, m, bs, run.closing() + x),
        level(m.calls, ps),
        compressed(ps + shown(bs)) is Ok,
        undone(ps + shown(bs)),
        fuel > bs.len(),
    ensures
        r.state == RxState::Idle,
        r.saved is None,
        r.input == x,
        r.token == run.closed().prev,
        level(r.calls, ps + shown(bs)),
        deflated_file(m, f.basis, f.head, out, fuel) == deflated_file(
            r,
            f.basis,
            f.head,
            out + joined(bs),
            (fuel - bs.len()) as nat,
        ),
{
    if run.open {
        lemma_run(m, ps, bs, run.start, run.last, x, f.basis, f.head, out, fuel)
    } else {
        assert(ps + shown(bs) =~= ps);
        assert(run.closing() + x =~= x);
        assert(out + joined(bs) =~= out);
        m
    }
}

/// Whether a reader stands before `x`, with the blocks `bs` of the run that
/// the writer has begun still to come.
spec fn reads_run(f: Flow, run: RunModel, m: RxModel, bs: Seq<Seq<u8>>, x: Seq<u8>) -> bool {
    if run.open {
        &&& stands_before(m, x)
        &&& bs.len() == run.last - run.start + 1
        &&& blocks_from(bs, run.start as int, f.basis, f.head)
    } else {
        &&& m.saved is None
        &&& m.input == x
        &&& bs.len() == 0
    }
}

/// A literal is read from its first frame on.
proof fn lemma_literal_start(
    f: Flow,
    m: RxModel,
    ps: Seq<Piece>,
    lit: Seq<u8>,
    b: Seq<u8>,
    x: Seq<u8>,
    out: Seq<u8>,
    fuel: nat,
) -> (r: (RxModel, nat))
    requires
        m.state == RxState::Idle,
        m.saved is None,
        m.input == deflated_frames(b) + x,
        x.len() > 0,
        x[0] as int / 64 != 1,
        lit.len() > 0,
        level(m.calls, ps),
        undone_at(ps),
        undone_at(ps.push(Piece::Sent(lit))),
        compressed(ps.push(Piece::Sent(lit))) matches Ok((_, wire)) && wire == compressed(
            ps,
        )->Ok_0.1 + b + sync_trailer(),
        fuel > lit.len(),
    ensures
        r.0.state == RxState::Idle,
        r.0.token == m.token,
        stands_before(r.0, x),
        level(r.0.calls, ps.push(Piece::Sent(lit))),
        r.1 <= lit.len(),
        deflated_file(m, f.basis, f.head, out, fuel) == deflated_file(
            r.0,
            f.basis,
            f.head,
            out + lit,
            (fuel - r.1) as nat,
        ),
{
    reveal(undone_at);
    let more = ps.push(Piece::Sent(lit));
    assert(more.drop_last() =~= ps);
    let before = compressed(ps)->Ok_0.1;
    let wire = compressed(more)->Ok_0.1;
    let none = Seq::<u8>::empty();
    if b.len() == 0 {
        assert(taken(m.calls) + none + none =~= before);
        lemma_offer(ps, m.calls, none, none, true);
        let (n, extra) = inflate_step(m.calls.push((none, INFLATE_ROOM as nat, true)))->0;
        assert((made(m.calls) + extra).len() <= plain_of(ps).len());
        assert(extra.len() == 0);
        assert(taken(m.calls) + sync_trailer() =~= wire);
        assert(before_trailer(more, m.calls));
        assert(made(m.calls) == plain_of(more));
        assert(plain_of(more).len() == plain_of(ps).len() + lit.len());
        assert(false);
    }
    let frame = if b.len() <= MAX_DATA_COUNT {
        b
    } else {
        b.take(MAX_DATA_COUNT as int)
    };
    let left = b.skip(frame.len() as int);
    assert(b =~= frame + left);
    assert(deflated_frames(b) =~= data_frame(frame) + deflated_frames(left)) by {
        if b.len() <= MAX_DATA_COUNT {
            assert(left =~= none);
        }
    }
    assert(m.input =~= data_frame(frame) + (deflated_frames(left) + x));
    frame_round_trip(m, frame, deflated_frames(left) + x);
    let m2 = RxModel {
        state: RxState::Inflating,
        cbuf: frame,
        input: deflated_frames(left) + x,
        ..m
    };
    assert(taken(m.calls) + frame + left + sync_trailer() =~= wire);
    assert(plain_of(ps) + none =~= plain_of(ps));
    assert(none =~= lit.subrange(0, 0));
    assert(rx_nearer(m, m2));
    lemma_go(m, m2, f.basis, f.head, out, fuel);
    let r = lemma_literal(m2, more, lit, none, left, x, f.basis, f.head, out, fuel);
    assert(lit.skip(0) =~= lit);
    r
}

proof fn lemma_plain_shown(ps: Seq<Piece>, bs: Seq<Seq<u8>>)
    ensures
        plain_of(ps + shown(bs)) == plain_of(ps) + joined(bs),
    decreases bs.len(),
{
    let all = ps + shown(bs);
    if bs.len() == 0 {
        assert(all =~= ps);
        assert(plain_of(ps) + joined(bs) =~= plain_of(ps));
    } else {
        lemma_plain_shown(ps, bs.drop_last());
        assert(all.drop_last() =~= ps + shown(bs.drop_last()));
        assert(all.last() == Piece::Shown(bs.last()));
        assert(plain_of(all) =~= plain_of(ps) + joined(bs));
    }
}

proof fn lemma_joined_len(bs: Seq<Seq<u8>>)
    requires
        forall|j: int| 0 <= j < bs.len() ==> (#[trigger] bs[j]).len() > 0,
    ensures
        joined(bs).len() >= bs.len(),
    decreases bs.len(),
{
    if bs.len() > 0 {
        assert(bs[bs.len() - 1].len() > 0);
        assert forall|j: int| 0 <= j < bs.drop_last().len() implies (
        #[trigger] bs.drop_last()[j]).len() > 0 by {
            assert(bs.drop_last()[j] == bs[j]);
        }
        lemma_joined_len(bs.drop_last());
    }
}

proof fn lemma_plain_prefix(ps: Seq<Piece>, k: int)
    requires
        0 <= k <= ps.len(),
    ensures
        plain_of(ps.take(k)).len() <= plain_of(ps).len(),
    decreases ps.len() - k,
{
    if k == ps.len() {
        assert(ps.take(k) =~= ps);
    } else {
        lemma_plain_prefix(ps, k + 1);
        assert(ps.take(k + 1).drop_last() =~= ps.take(k));
    }
}

/// Some pieces at the front of all.
proof fn lemma_front(f: Flow, ps: Seq<Piece>)
    requires
        f.wf(),
        ps.len() <= f.total().len(),
        ps == f.total().take(ps.len() as int),
    ensures
        undone(ps),
        undone_at(ps),
        plain_of(ps).len() <= plain_of(f.total()).len(),
{
    let all = f.total();
    assert forall|k: int| 0 <= k <= ps.len() implies undone_at(#[trigger] ps.take(k)) by {
        assert(ps.take(k) =~= all.take(k));
    }
    assert(ps.take(ps.len() as int) =~= ps);
    lemma_plain_prefix(all, ps.len() as int);
}

/// The pieces after `k` steps are at the front of all, and so are they with
/// the literal bytes behind them where these are compressed next.
proof fn lemma_pieces_front(f: Flow, k: int)
    requires
        f.wf(),
        0 <= k <= f.ops.len(),
    ensures
        f.pieces(k).0.len() <= f.total().len(),
        f.pieces(k).0 == f.total().take(f.pieces(k).0.len() as int),
{
    lemma_steps_ok(f, k);
    assert(f.ops.take(f.ops.len() as int) =~= f.ops);
    let a = f.pieces(k).0;
    let b = f.pieces(f.ops.len() as int).0;
    assert(a =~= f.total().take(a.len() as int));
}

/// Whether a reader lags behind the writer after `k` steps by the run that the
/// writer has begun, and by the literal bytes that it has not compressed yet.
spec fn lags(
    f: Flow,
    k: int,
    m: RxModel,
    ps: Seq<Piece>,
    bs: Seq<Seq<u8>>,
    fuel: nat,
) -> bool {
    &&& f.writer(k) matches Ok(w) && m.token == w.run.prev && reads_run(
        f,
        w.run,
        m,
        bs,
        f.left(k) + f.rest,
    )
    &&& f.pieces(k).0 == ps + shown(bs)
    &&& forall|j: int| 0 <= j < bs.len() ==> (#[trigger] bs[j]).len() > 0
    &&& m.state == RxState::Idle
    &&& level(m.calls, ps)
    &&& fuel > plain_of(f.total()).len() - plain_of(ps).len()
}

/// What is known of the pieces of a reader that lags.
proof fn lemma_lagging(f: Flow, k: int, m: RxModel, ps: Seq<Piece>, bs: Seq<Seq<u8>>, fuel: nat)
    requires
        f.wf(),
        0 <= k <= f.ops.len(),
        lags(f, k, m, ps, bs, fuel),
    ensures
        undone(ps + shown(bs)),
        undone_at(ps + shown(bs)),
        compressed(ps + shown(bs)) is Ok,
        plain_of(ps + shown(bs)) == plain_of(ps) + joined(bs),
        plain_of(ps + shown(bs)).len() <= plain_of(f.total()).len(),
        joined(bs).len() >= bs.len(),
        fuel > bs.len(),
        f.writer(k)->Ok_0.run.counts_from_zero(),
        f.writer(k)->Ok_0.pending == f.pieces(k).1,
{
    lemma_writer(f, k);
    lemma_pieces_front(f, k);
    lemma_front(f, ps + shown(bs));
    lemma_plain_shown(ps, bs);
    lemma_joined_len(bs);
}

/// A block that goes on with the run leaves the reader where it is.
proof fn lemma_lag_grows(f: Flow, k: int, m: RxModel, ps: Seq<Piece>, bs: Seq<Seq<u8>>, fuel: nat)
    requires
        f.wf(),
        0 <= k < f.ops.len(),
        lags(f, k, m, ps, bs, fuel),
        f.writer(k)->Ok_0.pending.len() == 0,
        f.ops[k] matches DeltaOp::Match { block_idx, offset } && f.writer(k)->Ok_0.run.continues(
            block_idx as i32,
        ),
    ensures
        f.ops[k] matches DeltaOp::Match { block_idx, offset } && lags(
            f,
            k + 1,
            m,
            ps,
            bs.push(piece_of(f.data, offset as int, f.blength)),
            fuel,
        ),
{
    let w = f.writer(k)->Ok_0;
    lemma_lagging(f, k, m, ps, bs, fuel);
    lemma_step_writes(f, k);
    let v = f.writer(k + 1)->Ok_0;
    let steps = f.ops.take(k + 1);
    assert(steps.drop_last() =~= f.ops.take(k));
    assert(steps.last() == f.ops[k]);
    match f.ops[k] {
        DeltaOp::Literal { offset, len } => {},
        DeltaOp::Match { block_idx, offset } => {
            let b = piece_of(f.data, offset as int, f.blength);
            let more = bs.push(b);
            assert(v.output =~= w.output);
            assert(ps + shown(bs) + sent(w.pending) + seq![Piece::Shown(b)] =~= ps + shown(more));
            assert forall|j: int| 0 <= j < more.len() implies #[trigger] more[j] == basis_block(
                f.basis,
                f.head,
                w.run.start + j,
            ) && more[j].len() > 0 by {
                if j < bs.len() {
                    assert(more[j] == bs[j]);
                }
            }
        },
    }
}

/// A block that begins a run makes the reader catch up with the run before it.
proof fn lemma_catch_up(f: Flow, k: int, m: RxModel, ps: Seq<Piece>, bs: Seq<Seq<u8>>, fuel: nat) -> (r:
    RxModel)
    requires
        f.wf(),
        0 <= k < f.ops.len(),
        lags(f, k, m, ps, bs, fuel),
        f.writer(k)->Ok_0.pending.len() == 0,
        f.ops[k] matches DeltaOp::Match { block_idx, offset } && !f.writer(k)->Ok_0.run.continues(
            block_idx as i32,
        ),
    ensures
        f.ops[k] matches DeltaOp::Match { block_idx, offset } && lags(
            f,
            k + 1,
            r,
            ps + shown(bs),
            seq![piece_of(f.data, offset as int, f.blength)],
            (fuel - bs.len()) as nat,
        ),
        deflated_file(m, f.basis, f.head, plain_of(ps), fuel) == deflated_file(
            r,
            f.basis,
            f.head,
            plain_of(ps + shown(bs)),
            (fuel - bs.len()) as nat,
        ),
{
    let w = f.writer(k)->Ok_0;
    let now = ps + shown(bs);
    lemma_lagging(f, k, m, ps, bs, fuel);
    lemma_step_writes(f, k);
    lemma_output_stays(f, k + 1);
    lemma_next_flag(f, k + 1);
    let x = f.left(k + 1) + f.rest;
    lemma_left_after(f.all, w.output, w.run.closing());
    assert(f.left(k) + f.rest =~= w.run.closing() + x);
    let r = lemma_close(f, w.run, m, ps, bs, x, plain_of(ps), fuel);
    let steps = f.ops.take(k + 1);
    assert(steps.drop_last() =~= f.ops.take(k));
    assert(steps.last() == f.ops[k]);
    match f.ops[k] {
        DeltaOp::Literal { offset, len } => {},
        DeltaOp::Match { block_idx, offset } => {
            let b = piece_of(f.data, offset as int, f.blength);
            assert(now + sent(w.pending) + seq![Piece::Shown(b)] =~= now + shown(seq![b]));
            assert(blocks_from(seq![b], block_idx as int, f.basis, f.head));
        },
    }
    r
}

/// What a block behind literal bytes makes the writer write: the run before
/// them, and their frames.
proof fn lemma_literal_layout(f: Flow, k: int) -> (c: Seq<u8>)
    requires
        f.wf(),
        0 <= k < f.ops.len(),
        f.writer(k) matches Ok(w) && w.pending.len() > 0,
        f.ops[k] is Match,
    ensures
        f.left(k) == f.writer(k)->Ok_0.run.closing() + deflated_frames(c) + f.left(k + 1),
        compressed(f.pieces(k).0.push(Piece::Sent(f.writer(k)->Ok_0.pending))) matches Ok((_, wire))
            && wire == compressed(f.pieces(k).0)->Ok_0.1 + c + sync_trailer(),
{
    lemma_step_writes(f, k);
    lemma_output_stays(f, k + 1);
    let w = f.writer(k)->Ok_0;
    let v = f.writer(k + 1)->Ok_0;
    let now = f.pieces(k).0;
    let mid = now.push(Piece::Sent(w.pending));
    assert(now + sent(w.pending) =~= mid);
    let wire = compressed(mid)->Ok_0.1;
    let before = compressed(now)->Ok_0.1;
    let c = choose|c: Seq<u8>|
        wire == before + c + sync_trailer() && v.output == w.output + w.run.closing()
            + #[trigger] deflated_frames(c);
    let added = w.run.closing() + deflated_frames(c);
    assert(v.output =~= w.output + added);
    lemma_left_after(f.all, w.output, added);
    c
}

/// The pieces after literal bytes and a block behind them.
proof fn lemma_literal_pieces(f: Flow, k: int)
    requires
        f.wf(),
        0 <= k < f.ops.len(),
        f.pieces(k).1.len() > 0,
        f.ops[k] is Match,
    ensures
        f.ops[k] matches DeltaOp::Match { block_idx, offset } && f.pieces(k + 1).0 == f.pieces(
            k,
        ).0.push(Piece::Sent(f.pieces(k).1)) + shown(
            seq![piece_of(f.data, offset as int, f.blength)],
        ),
        undone_at(f.pieces(k).0.push(Piece::Sent(f.pieces(k).1))),
        plain_of(f.pieces(k).0.push(Piece::Sent(f.pieces(k).1))) == plain_of(f.pieces(k).0)
            + f.pieces(k).1,
        plain_of(f.pieces(k).0.push(Piece::Sent(f.pieces(k).1))).len() <= plain_of(f.total()).len(),
{
    let now = f.pieces(k).0;
    let mid = now.push(Piece::Sent(f.pieces(k).1));
    let steps = f.ops.take(k + 1);
    assert(steps.drop_last() =~= f.ops.take(k));
    assert(steps.last() == f.ops[k]);
    match f.ops[k] {
        DeltaOp::Literal { offset, len } => {},
        DeltaOp::Match { block_idx, offset } => {
            let b = piece_of(f.data, offset as int, f.blength);
            assert(f.pieces(k + 1).0 =~= mid + shown(seq![b]));
        },
    }
    lemma_pieces_front(f, k + 1);
    assert(f.total().take(mid.len() as int) =~= mid);
    lemma_front(f, mid);
    assert(mid.drop_last() =~= now);
}

/// A block behind literal bytes makes the reader catch up with the run before
/// them and with the bytes.
proof fn lemma_catch_up_literal(
    f: Flow,
    k: int,
    m: RxModel,
    ps: Seq<Piece>,
    bs: Seq<Seq<u8>>,
    fuel: nat,
) -> (r: (RxModel, nat))
    requires
        f.wf(),
        0 <= k < f.ops.len(),
        lags(f, k, m, ps, bs, fuel),
        f.writer(k)->Ok_0.pending.len() > 0,
        f.ops[k] is Match,
    ensures
        r.1 <= fuel,
        f.ops[k] matches DeltaOp::Match { block_idx, offset } && lags(
            f,
            k + 1,
            r.0,
            (ps + shown(bs)).push(Piece::Sent(f.writer(k)->Ok_0.pending)),
            seq![piece_of(f.data, offset as int, f.blength)],
            (fuel - r.1) as nat,
        ),
        deflated_file(m, f.basis, f.head, plain_of(ps), fuel) == deflated_file(
            r.0,
            f.basis,
            f.head,
            plain_of((ps + shown(bs)).push(Piece::Sent(f.writer(k)->Ok_0.pending))),
            (fuel - r.1) as nat,
        ),
{
    let w = f.writer(k)->Ok_0;
    let now = ps + shown(bs);
    lemma_lagging(f, k, m, ps, bs, fuel);
    lemma_step_writes(f, k);
    lemma_next_flag(f, k + 1);
    lemma_literal_pieces(f, k);
    let c = lemma_literal_layout(f, k);
    let x = f.left(k + 1) + f.rest;
    assert(f.left(k) + f.rest =~= w.run.closing() + (deflated_frames(c) + x));
    let r = lemma_close(f, w.run, m, ps, bs, deflated_frames(c) + x, plain_of(ps), fuel);
    let (q, n) = lemma_literal_start(
        f,
        r,
        now,
        w.pending,
        c,
        x,
        plain_of(now),
        (fuel - bs.len()) as nat,
    );
    match f.ops[k] {
        DeltaOp::Literal { offset, len } => {},
        DeltaOp::Match { block_idx, offset } => {
            let b = piece_of(f.data, offset as int, f.blength);
            assert(blocks_from(seq![b], block_idx as int, f.basis, f.head));
        },
    }
    (q, bs.len() + n)
}

/// A reader that lags behind the writer reads the rest of the file.
proof fn lemma_file(f: Flow, k: int, m: RxModel, ps: Seq<Piece>, bs: Seq<Seq<u8>>, fuel: nat)
    requires
        f.wf(),
        0 <= k <= f.ops.len(),
        lags(f, k, m, ps, bs, fuel),
    ensures
        deflated_file(m, f.basis, f.head, plain_of(ps), fuel) matches (Ok(d), end) && d == plain_of(
            f.total(),
        ) && end.input == f.rest,
    decreases f.ops.len() - k,
{
    let w = f.writer(k)->Ok_0;
    if k == f.ops.len() {
        lemma_writer(f, k);
        lemma_file_end(f, m, ps, bs, fuel);
    } else {
        match f.ops[k] {
            DeltaOp::Literal { offset, len } => {
                lemma_step_writes(f, k);
                let steps = f.ops.take(k + 1);
                assert(steps.drop_last() =~= f.ops.take(k));
                assert(steps.last() == f.ops[k]);
                lemma_file(f, k + 1, m, ps, bs, fuel);
            },
            DeltaOp::Match { block_idx, offset } => {
                let b = piece_of(f.data, offset as int, f.blength);
                if w.pending.len() > 0 {
                    let (q, n) = lemma_catch_up_literal(f, k, m, ps, bs, fuel);
                    lemma_file(
                        f,
                        k + 1,
                        q,
                        (ps + shown(bs)).push(Piece::Sent(w.pending)),
                        seq![b],
                        (fuel - n) as nat,
                    );
                } else if w.run.continues(block_idx as i32) {
                    lemma_lag_grows(f, k, m, ps, bs, fuel);
                    lemma_file(f, k + 1, m, ps, bs.push(b), fuel);
                } else {
                    let r = lemma_catch_up(f, k, m, ps, bs, fuel);
                    lemma_file(f, k + 1, r, ps + shown(bs), seq![b], (fuel - bs.len()) as nat);
                }
            },
        }
    }
}

/// A reader reads the end of the file.
#[verifier::spinoff_prover]
#[verifier::rlimit(40)]
proof fn lemma_file_end(f: Flow, m: RxModel, ps: Seq<Piece>, bs: Seq<Seq<u8>>, fuel: nat)
    requires
        f.wf(),
        f.writer(f.ops.len() as int) matches Ok(w) && m.token == w.run.prev && w.run.counts_from_zero()
            && reads_run(f, w.run, m, bs, f.left(f.ops.len() as int) + f.rest),
        f.pieces(f.ops.len() as int).0 == ps + shown(bs),
        forall|j: int| 0 <= j < bs.len() ==> (#[trigger] bs[j]).len() > 0,
        m.state == RxState::Idle,
        level(m.calls, ps),
        fuel > plain_of(f.total()).len() - plain_of(ps).len(),
    ensures
        deflated_file(m, f.basis, f.head, plain_of(ps), fuel) matches (Ok(d), end) && d == plain_of(
            f.total(),
        ) && end.input == f.rest,
{
    let k = f.ops.len() as int;
    let w = f.writer(k)->Ok_0;
    let now = ps + shown(bs);
    assert(f.ops.take(k) =~= f.ops);
    lemma_writer(f, k);
    lemma_end_writes(f);
    lemma_pieces_front(f, k);
    lemma_front(f, now);
    lemma_plain_shown(ps, bs);
    lemma_joined_len(bs);
    let x = seq![END_FLAG] + f.rest;
    lemma_parse_byte(END_FLAG, f.rest);
    assert(x.skip(1) =~= f.rest);
    if w.pending.len() == 0 {
        assert(f.left(k) + f.rest =~= w.run.closing() + x);
        let r = lemma_close(f, w.run, m, ps, bs, x, plain_of(ps), fuel);
        assert(f.total() =~= now);
        lemma_end(r, f.basis, f.head, plain_of(now), (fuel - bs.len()) as nat, f.rest);
    } else {
        let mid = now.push(Piece::Sent(w.pending));
        assert(f.total() =~= mid);
        let wire = compressed(mid)->Ok_0.1;
        let before = compressed(now)->Ok_0.1;
        let c = choose|c: Seq<u8>|
            wire == before + c + sync_trailer() && f.all == w.output + w.run.closing()
                + #[trigger] deflated_frames(c) + seq![END_FLAG];
        assert(f.left(k) + f.rest =~= w.run.closing() + (deflated_frames(c) + x));
        assert(f.total().take(mid.len() as int) =~= mid);
        lemma_front(f, mid);
        assert(mid.drop_last() =~= now);
        let r = lemma_close(f, w.run, m, ps, bs, deflated_frames(c) + x, plain_of(ps), fuel);
        let (q, n) = lemma_literal_start(
            f,
            r,
            now,
            w.pending,
            c,
            x,
            plain_of(now),
            (fuel - bs.len()) as nat,
        );
        assert(plain_of(mid) == plain_of(now) + w.pending);
        lemma_end(q, f.basis, f.head, plain_of(mid), (fuel - bs.len() - n) as nat, f.rest);
    }
}

proof fn lemma_end(
    m: RxModel,
    basis: Seq<u8>,
    head: SumHead,
    out: Seq<u8>,
    fuel: nat,
    rest: Seq<u8>,
)
    requires
        m.state == RxState::Idle,
        stands_before(m, seq![END_FLAG] + rest),
        fuel > 0,
    ensures
        deflated_file(m, basis, head, out, fuel) matches (Ok(d), end) && d == out && end.input
            == rest,
{
    let x = seq![END_FLAG] + rest;
    lemma_parse_byte(END_FLAG, rest);
    assert(x.skip(1) =~= rest);
    let end = RxModel { state: RxState::Init, saved: None, input: rest, ..m };
    assert(rx_step(m) == RxStep::Give(None, end));
    assert(rx_read(m) == (Ok::<Option<TokenModel>, WireError>(None), end));
}

proof fn lemma_pieces_plain(
    ops: Seq<DeltaOp>,
    data: Seq<u8>,
    head: SumHead,
    b: int,
    to: int,
)
    requires
        0 <= to <= data.len(),
        b == if head.blength > 0 {
            head.blength as int
        } else {
            0
        },
        ops_cover(ops, b, 0, to),
        head.blength <= 0 ==> forall|i: int| 0 <= i < ops.len() ==> #[trigger] ops[i] is Literal,
    ensures
        plain_of(step_pieces(ops, data, head.blength as int).0) + step_pieces(
            ops,
            data,
            head.blength as int,
        ).1 == data.take(to),
    decreases ops.len(),
{
    let blength = head.blength as int;
    let (ps, pending) = step_pieces(ops, data, blength);
    if ops.len() == 0 {
        assert(plain_of(ps) + pending =~= data.take(to));
    } else {
        let at = op_start(ops.last());
        assert(ops.last() == ops[ops.len() - 1]);
        lemma_cover_last(ops, b, 0, to);
        lemma_cover_bound(ops.drop_last(), b, 0, at);
        lemma_pieces_plain(ops.drop_last(), data, head, b, at);
        let (qs, had) = step_pieces(ops.drop_last(), data, blength);
        match ops.last() {
            DeltaOp::Literal { offset, len } => {
                let p = piece_of(data, offset as int, len as int);
                assert(p =~= data.subrange(at, to));
                assert(plain_of(qs) + (had + p) =~= (plain_of(qs) + had) + p);
                assert(data.take(at) + p =~= data.take(to));
            },
            DeltaOp::Match { block_idx, offset } => {
                let p = piece_of(data, offset as int, blength);
                assert(p =~= data.subrange(at, to));
                let mid = qs + sent(had);
                assert(plain_of(mid) =~= plain_of(qs) + had) by {
                    if had.len() == 0 {
                        assert(mid =~= qs);
                    } else {
                        assert(mid.drop_last() =~= qs);
                    }
                }
                assert(ps.drop_last() =~= mid);
                assert(plain_of(ps) + pending =~= (plain_of(qs) + had) + p);
                assert(data.take(at) + p =~= data.take(to));
            },
        }
    }
}

/// The pieces of a file that the sending side was asked for.
pub open spec fn job_pieces(job: JobModel, data: Seq<u8>, seed: i32) -> Seq<Piece> {
    file_pieces(job_steps(job, data, seed), data, job.head.blength as int)
}

/// A file that the sending side was asked for is on its way, and its pieces
/// stand for it.
proof fn lemma_flow(f: Flow, job: JobModel, seed: i32)
    requires
        f.data.len() < u64::MAX,
        job.sums.len() <= i32::MAX,
        steps_cover(job, f.data, seed),
        job.head.blength >= 0,
        job.head.remainder >= 0,
        sums_tell_apart(job, f.data, f.basis, seed),
        undone(job_pieces(job, f.data, seed)),
        f.ops == job_steps(job, f.data, seed),
        f.blength == job.head.blength,
        f.head == job.head,
        deflated_steps(deflated_start(f.output), f.ops, f.data, f.blength) matches Ok(w)
            && w.finished() == Ok::<Seq<u8>, WireError>(f.all),
    ensures
        f.wf(),
        plain_of(f.total()) == f.data,
{
    let ops = f.ops;
    let data = f.data;
    assert(ops.take(ops.len() as int) =~= ops);
    lemma_copies_agree(job, data, f.basis, seed);
    if f.blength > 0 {
        lemma_ops_within(ops, f.blength, 0, data.len() as int);
    }
    assert forall|i: int| 0 <= i < ops.len() implies match #[trigger] ops[i] {
        DeltaOp::Literal { offset: _, len: _ } => true,
        DeltaOp::Match { block_idx, offset } => block_idx < i32::MAX && piece_of(
            data,
            offset as int,
            f.blength,
        ) == basis_block(f.basis, f.head, block_idx as int) && piece_of(
            data,
            offset as int,
            f.blength,
        ).len() > 0,
    } by {
        match ops[i] {
            DeltaOp::Literal { offset, len } => {},
            DeltaOp::Match { block_idx, offset } => {
                assert(op_start(ops[i]) + op_len(ops[i], f.blength) <= data.len());
                assert(piece_of(data, offset as int, f.blength) =~= data.subrange(
                    offset as int,
                    offset + f.blength,
                ));
            },
        }
    }
    lemma_pieces_plain(ops, data, f.head, f.blength, data.len() as int);
    let (qs, had) = step_pieces(ops, data, f.blength);
    if had.len() == 0 {
        assert(f.total() =~= qs);
        assert(plain_of(qs) + had =~= plain_of(qs));
    } else {
        assert(f.total().drop_last() =~= qs);
    }
    assert(data.take(data.len() as int) =~= data);
}

/// A reader reads a file on its way from its start.
proof fn lemma_flow_read(f: Flow)
    requires
        f.wf(),
        plain_of(f.total()).len() < u64::MAX,
    ensures
        parse_file(f.left(0) + f.rest, f.basis, f.head, true) == Ok::<
            (Seq<u8>, Seq<u8>),
            WireError,
        >((plain_of(f.total()), f.rest)),
{
    assert(f.ops.take(0) =~= Seq::<DeltaOp>::empty());
    lemma_writer(f, 0);
    let none = Seq::<Piece>::empty();
    let no_blocks = Seq::<Seq<u8>>::empty();
    let start = deflated_reader(f.left(0) + f.rest);
    let m = RxModel { state: RxState::Idle, token: 0, ..start };
    assert(rx_step(start) == RxStep::Go(m));
    assert(rx_nearer(start, m));
    let fuel = u64::MAX as nat;
    lemma_go(start, m, f.basis, f.head, Seq::empty(), fuel);
    assert(f.pieces(0).0 =~= none + shown(no_blocks));
    assert(level(m.calls, none));
    assert(lags(f, 0, m, none, no_blocks, fuel));
    lemma_file(f, 0, m, none, no_blocks, fuel);
}

/// The receiving side reads from the wire what the sending side wrote for a
/// file in compressed form, and rebuilds the file from it, as long as the
/// decompressing stream undoes what the compressing stream made.
pub proof fn compressed_file_survives(
    output: Seq<u8>,
    job: JobModel,
    data: Seq<u8>,
    basis: Seq<u8>,
    seed: i32,
    tail: Seq<u8>,
)
    requires
        data.len() < u64::MAX,
        job.sums.len() <= i32::MAX,
        steps_cover(job, data, seed),
        job.head.blength >= 0,
        job.head.remainder >= 0,
        sums_tell_apart(job, data, basis, seed),
        undone(job_pieces(job, data, seed)),
        file_output(output, job, data, seed, true) is Ok,
    ensures
        ({
            let head = output + sum_head_bytes(job.head);
            let sum = strong_sum(data, ChecksumType::Md5, 0, false);
            file_output(output, job, data, seed, true) matches Ok(out) && exists|stream: Seq<u8>|
                out == head + stream + sum && #[trigger] parse_file(
                    stream + tail,
                    basis,
                    job.head,
                    true,
                ) == Ok::<(Seq<u8>, Seq<u8>), WireError>((data, tail))
        }),
{
    let ops = job_steps(job, data, seed);
    let blength = job.head.blength as int;
    let head = output + sum_head_bytes(job.head);
    let sum = strong_sum(data, ChecksumType::Md5, 0, false);
    let w = deflated_steps(deflated_start(head), ops, data, blength)->Ok_0;
    let all = w.finished()->Ok_0;
    let f = Flow { output: head, ops, data, blength, basis, head: job.head, all, rest: tail };
    lemma_flow(f, job, seed);
    lemma_flow_read(f);
    lemma_output_stays(f, 0);
    lemma_writer(f, 0);
    let stream = f.left(0);
    assert(all + sum =~= head + stream + sum);
    assert(parse_file(stream + tail, basis, job.head, true) == Ok::<
        (Seq<u8>, Seq<u8>),
        WireError,
    >((data, tail)));
}

/// The answer to a request, as the sending side writes it in compressed form,
/// is read back as the file and its checksum, as long as the decompressing
/// stream undoes what the compressing stream made.
pub proof fn compressed_answer_round_trip(
    protocol: u32,
    prev: NdxPrev,
    job: JobModel,
    data: Seq<u8>,
    basis: Seq<u8>,
    seed: i32,
    tail: Seq<u8>,
)
    requires
        can_write_index(protocol, job.ndx),
        data.len() < u64::MAX,
        job.sums.len() <= i32::MAX,
        steps_cover(job, data, seed),
        job.head.blength >= 0,
        job.head.remainder >= 0,
        sums_tell_apart(job, data, basis, seed),
        undone(job_pieces(job, data, seed)),
    ensures
        ({
            let echo = index_bytes(protocol, prev, job.ndx) + if protocol >= 29 {
                enc_shortint(ITEM_TRANSFER as u16)
            } else {
                Seq::empty()
            };
            file_output(echo, job, data, seed, true) matches Ok(out) ==> parse_answer(
                protocol,
                prev,
                out + tail,
                basis,
                true,
                16,
            ) == Ok::<((Seq<u8>, NdxPrev, Seq<u8>), Seq<u8>), WireError>(
                (
                    (
                        data,
                        index_after(protocol, prev, job.ndx),
                        strong_sum(data, ChecksumType::Md5, 0, false),
                    ),
                    tail,
                ),
            )
        }),
{
    let a = index_bytes(protocol, prev, job.ndx);
    let g = if protocol >= 29 {
        enc_shortint(ITEM_TRANSFER as u16)
    } else {
        Seq::empty()
    };
    if file_output(a + g, job, data, seed, true) is Ok {
        let h = sum_head_bytes(job.head);
        let sum = strong_sum(data, ChecksumType::Md5, 0, false);
        let out = file_output(a + g, job, data, seed, true)->Ok_0;
        let r4 = sum + tail;
        compressed_file_survives(a + g, job, data, basis, seed, r4);
        let stream = choose|stream: Seq<u8>|
            out == a + g + h + stream + sum && #[trigger] parse_file(
                stream + r4,
                basis,
                job.head,
                true,
            ) == Ok::<(Seq<u8>, Seq<u8>), WireError>((data, r4));
        strong_sums_have_a_length(data, ChecksumType::Md5, 0, false);
        let r3 = stream + r4;
        let r2 = h + r3;
        let r1 = g + r2;
        assert(out + tail =~= a + r1);
        index_round_trip(protocol, prev, job.ndx, r1);
        if protocol >= 29 {
            lemma_parse_shortint(ITEM_TRANSFER as u16, r2);
        } else {
            assert(r1 =~= r2);
        }
        sum_head_round_trip(job.head, r3);
        lemma_parse_bytes(sum, tail);
    }
}

} // verus!
