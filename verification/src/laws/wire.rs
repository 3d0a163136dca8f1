//! What goes over the wire, byte by byte.

use vstd::prelude::*;

use crate::delta::match_blocks::sum_head_bytes;
use crate::delta::token::{chunk_rest, chunk_tokens, enc_token, literal_token, TokenModel};
use crate::io::bytes::{bits32, bits64, le_bytes};
use crate::io::multiplex::{data_frames, frame, trim_line_end};
use crate::io::varint::{
    enc_int, enc_longint, enc_ndx, enc_shortint, enc_var, enc_varint, enc_vstring, ndx_after,
    ndx_start, spare, trimmed_len, NdxPrev,
};
use crate::pipeline::items::index_bytes;
use crate::protocol::constants::MsgCode;
use crate::protocol::types::SumHead;

verus! {

// ---------------------------------------------------------------------------
// Integers
// ---------------------------------------------------------------------------

proof fn lemma_two(v: nat)
    requires
        v < 0x1_0000,
    ensures
        le_bytes(v, 2) == seq![(v % 256) as u8, (v / 256) as u8],
{
    reveal_with_fuel(le_bytes, 3);
    assert(v / 256 % 256 == v / 256);
    assert(le_bytes(v, 2) =~= seq![(v % 256) as u8, (v / 256) as u8]);
}

proof fn lemma_four(v: nat)
    requires
        v < 0x1_0000_0000,
    ensures
        le_bytes(v, 4) == seq![
            (v % 256) as u8,
            (v / 256 % 256) as u8,
            (v / 0x1_0000 % 256) as u8,
            (v / 0x100_0000) as u8,
        ],
{
    reveal_with_fuel(le_bytes, 5);
    assert(v / 256 / 256 == v / 0x1_0000 && v / 256 / 256 / 256 == v / 0x100_0000);
    assert(v / 0x100_0000 % 256 == v / 0x100_0000);
    assert(le_bytes(v, 4) =~= seq![
        (v % 256) as u8,
        (v / 256 % 256) as u8,
        (v / 0x1_0000 % 256) as u8,
        (v / 0x100_0000) as u8,
    ]);
}

/// An integer goes as four bytes that make it up, the lowest first; a negative
/// one as what it lacks to two to the power of thirty-two.
pub proof fn integers_go_lowest_byte_first(x: i32)
    ensures
        ({
            let b = enc_int(x);
            let v = b[0] + 0x100 * b[1] + 0x1_0000 * b[2] + 0x100_0000 * b[3];
            b.len() == 4 && v == if x >= 0 {
                x as int
            } else {
                x + 0x1_0000_0000
            }
        }),
{
    lemma_four(bits32(x));
}

/// A short integer goes as two bytes, the lower first.
pub proof fn short_integers_go_lowest_byte_first(x: u16)
    ensures
        enc_shortint(x) == seq![(x % 256) as u8, (x / 256) as u8],
{
    lemma_two(x as nat);
}

/// A long integer goes as an integer where it is one that is not negative;
/// otherwise it goes as eight bytes behind four of ones.
pub proof fn long_integers_go_as_integers_where_they_can(x: i64)
    ensures
        0 <= x <= 0x7fff_ffff ==> enc_longint(x) == enc_int(x as i32),
        x < 0 || x > 0x7fff_ffff ==> enc_longint(x).len() == 12 && enc_longint(x).take(4)
            == enc_int((-1) as i32) && enc_longint(x).subrange(4, 8) == enc_int(
            crate::io::bytes::signed32(bits64(x) % 0x1_0000_0000),
        ) && enc_longint(x).skip(8) == enc_int(
            crate::io::bytes::signed32(bits64(x) / 0x1_0000_0000),
        ),
{
    if !(0 <= x <= 0x7fff_ffff) {
        let v = bits64(x);
        let lo = v % 0x1_0000_0000;
        let hi = v / 0x1_0000_0000;
        lemma_four(0xffff_ffff);
        assert(bits32((-1) as i32) == 0xffff_ffff);
        assert(enc_longint(x).take(4) =~= seq![0xffu8, 0xffu8, 0xffu8, 0xffu8]);
        assert(enc_int((-1) as i32) =~= seq![0xffu8, 0xffu8, 0xffu8, 0xffu8]);
        lemma_eight(v);
        assert(bits32(crate::io::bytes::signed32(lo)) == lo);
        assert(bits32(crate::io::bytes::signed32(hi)) == hi);
        crate::io::bytes::lemma_le_bytes_len(lo, 4);
        crate::io::bytes::lemma_le_bytes_len(hi, 4);
        assert(enc_longint(x).subrange(4, 8) =~= le_bytes(lo, 4));
        assert(enc_longint(x).skip(8) =~= le_bytes(hi, 4));
    }
}

proof fn lemma_eight(v: nat)
    requires
        v < 0x1_0000_0000_0000_0000,
    ensures
        le_bytes(v, 8) == le_bytes(v % 0x1_0000_0000, 4) + le_bytes(v / 0x1_0000_0000, 4),
{
    lemma_cut(v, 4, 4);
    crate::io::bytes::lemma_pow256();
    assert(le_bytes(v, 4) =~= le_bytes(v % 0x1_0000_0000, 4)) by {
        lemma_low(v, 4);
    }
}

proof fn lemma_cut(v: nat, m: nat, n: nat)
    ensures
        le_bytes(v, m + n) == le_bytes(v, m) + le_bytes(v / crate::io::bytes::pow256(m), n),
    decreases m,
{
    if m == 0 {
        assert(v / 1 == v);
        assert(crate::io::bytes::pow256(m) == 1);
        assert(le_bytes(v, m) + le_bytes(v, n) =~= le_bytes(v, n));
    } else {
        let k = (m - 1) as nat;
        let p = crate::io::bytes::pow256(k);
        lemma_cut(v / 256, k, n);
        lemma_pow_positive(k);
        vstd::arithmetic::div_mod::lemma_div_denominator(v as int, 256, p as int);
        assert(v / 256 / p == v / (256 * p));
        assert((m + n) as nat - 1 == k + n);
        assert(le_bytes(v, m + n) =~= seq![(v % 256) as u8] + le_bytes(v / 256, k + n));
        assert(le_bytes(v, m + n) =~= le_bytes(v, m) + le_bytes(v / (256 * p), n));
    }
}

proof fn lemma_pow_positive(k: nat)
    ensures
        crate::io::bytes::pow256(k) > 0,
    decreases k,
{
    if k > 0 {
        lemma_pow_positive((k - 1) as nat);
    }
}

proof fn lemma_low(v: nat, m: nat)
    requires
        m == 4,
    ensures
        le_bytes(v, m) == le_bytes(v % 0x1_0000_0000, m),
{
    let w = v % 0x1_0000_0000;
    reveal_with_fuel(le_bytes, 5);
    assert(w % 256 == v % 256);
    assert(w / 256 % 256 == v / 256 % 256);
    assert(w / 256 / 256 % 256 == v / 256 / 256 % 256);
    assert(w / 256 / 256 / 256 % 256 == v / 256 / 256 / 256 % 256);
    assert(le_bytes(v, 4) =~= le_bytes(w, 4));
}

proof fn lemma_trim_four(b0: u8, b1: u8, b2: u8, b3: u8)
    ensures
        trimmed_len(seq![b0, b1, b2, b3], 1) == if b3 != 0 {
            4nat
        } else if b2 != 0 {
            3nat
        } else if b1 != 0 {
            2nat
        } else {
            1nat
        },
{
    let s4 = seq![b0, b1, b2, b3];
    let s3 = seq![b0, b1, b2];
    let s2 = seq![b0, b1];
    let s1 = seq![b0];
    assert(s4.drop_last() =~= s3);
    assert(s3.drop_last() =~= s2);
    assert(s2.drop_last() =~= s1);
    assert(trimmed_len(s1, 1) == 1);
    assert(trimmed_len(s2, 1) == if b1 != 0 {
        2nat
    } else {
        1nat
    });
    assert(trimmed_len(s3, 1) == if b2 != 0 {
        3nat
    } else if b1 != 0 {
        2nat
    } else {
        1nat
    });
}

proof fn lemma_spare()
    ensures
        spare(0) == 128,
        spare(1) == 64,
        spare(2) == 32,
        spare(3) == 16,
{
    reveal_with_fuel(spare, 4);
}

/// A small number takes one byte, and a larger one as many as it needs: the
/// first byte says how many follow by its leading ones, and holds the highest
/// bits of the number.
pub proof fn variable_integers_are_short(x: i32)
    ensures
        0 <= x < 0x80 ==> enc_varint(x) == seq![x as u8],
        0x80 <= x < 0x4000 ==> enc_varint(x) == seq![(0x80 + x / 0x100) as u8, (x % 0x100) as u8],
        0x4000 <= x < 0x20_0000 ==> enc_varint(x) == seq![
            (0xc0 + x / 0x1_0000) as u8,
            (x % 0x100) as u8,
            (x / 0x100 % 0x100) as u8,
        ],
        0x20_0000 <= x < 0x1000_0000 ==> enc_varint(x) == seq![
            (0xe0 + x / 0x100_0000) as u8,
            (x % 0x100) as u8,
            (x / 0x100 % 0x100) as u8,
            (x / 0x1_0000 % 0x100) as u8,
        ],
        x < 0 || x >= 0x1000_0000 ==> enc_varint(x) == seq![0xf0u8] + enc_int(x),
{
    let v = bits32(x);
    lemma_four(v);
    lemma_spare();
    let s = le_bytes(v, 4);
    let b0 = (v % 256) as u8;
    let b1 = (v / 256 % 256) as u8;
    let b2 = (v / 0x1_0000 % 256) as u8;
    let b3 = (v / 0x100_0000) as u8;
    assert(s == seq![b0, b1, b2, b3]);
    lemma_trim_four(b0, b1, b2, b3);
    reveal(enc_var);
    if 0 <= x < 0x80 {
        assert(b1 == 0 && b2 == 0 && b3 == 0);
        assert(enc_varint(x) =~= seq![x as u8]);
    } else if 0x80 <= x < 0x4000 {
        assert(b2 == 0 && b3 == 0);
        assert(enc_varint(x) =~= seq![(0x80 + x / 0x100) as u8, (x % 0x100) as u8]);
    } else if 0x4000 <= x < 0x20_0000 {
        assert(b3 == 0);
        assert(enc_varint(x) =~= seq![
            (0xc0 + x / 0x1_0000) as u8,
            (x % 0x100) as u8,
            (x / 0x100 % 0x100) as u8,
        ]);
    } else if 0x20_0000 <= x < 0x1000_0000 {
        assert(enc_varint(x) =~= seq![
            (0xe0 + x / 0x100_0000) as u8,
            (x % 0x100) as u8,
            (x / 0x100 % 0x100) as u8,
            (x / 0x1_0000 % 0x100) as u8,
        ]);
    } else {
        assert(b3 >= 16);
        assert(s.take(4) =~= s);
        assert(enc_varint(x) =~= seq![0xf0u8] + s);
    }
}

// ---------------------------------------------------------------------------
// Indices
// ---------------------------------------------------------------------------

/// The index of a file goes as how far it is behind the one before: in one byte
/// for a small step, in three for a larger one, and in five where it goes back
/// or far ahead.
pub proof fn indices_go_as_steps(prev: NdxPrev, ndx: i32)
    requires
        ndx >= 0,
        prev.pos >= -1,
    ensures
        ({
            let d = ndx - prev.pos;
            &&& 1 <= d <= 253 ==> enc_ndx(prev, ndx) == seq![d as u8]
            &&& d == 0 || 254 <= d <= 0x7fff ==> enc_ndx(prev, ndx) == seq![
                0xfeu8,
                (d / 256) as u8,
                (d % 256) as u8,
            ]
            &&& d < 0 || d > 0x7fff ==> enc_ndx(prev, ndx) == seq![
                0xfeu8,
                (0x80 + ndx / 0x100_0000) as u8,
                (ndx % 256) as u8,
                (ndx / 256 % 256) as u8,
                (ndx / 0x1_0000 % 256) as u8,
            ]
            &&& ndx_after(prev, ndx).pos == ndx
            &&& ndx_after(prev, ndx).neg == prev.neg
        }),
        enc_ndx(prev, (-1) as i32) == seq![0u8],
        ndx_after(prev, (-1) as i32) == prev,
        enc_ndx(ndx_start(), 0) == seq![1u8],
{
}

/// Indices that stand for something else than a file are marked, and are
/// counted apart: the first two of them are one byte behind the mark.
pub proof fn special_indices_are_marked(prev: NdxPrev, ndx: i32)
    requires
        ndx < -1,
        ndx > i32::MIN,
    ensures
        enc_ndx(prev, ndx).len() >= 2,
        enc_ndx(prev, ndx)[0] == 0xff,
        1 <= -ndx - prev.neg <= 253 ==> enc_ndx(prev, ndx) == seq![0xffu8, (-ndx - prev.neg) as u8],
        ndx_after(prev, ndx).neg == -ndx,
        ndx_after(prev, ndx).pos == prev.pos,
        enc_ndx(ndx_start(), (-2) as i32) == seq![0xffu8, 1u8],
{
    if 1 <= -ndx - prev.neg <= 253 {
        assert(enc_ndx(prev, ndx) =~= seq![0xffu8, (-ndx - prev.neg) as u8]);
    }
    assert(enc_ndx(ndx_start(), (-2) as i32) =~= seq![0xffu8, 1u8]);
}

/// Indices go as steps from protocol 30 on and as integers below it.
pub proof fn old_protocols_send_whole_indices(protocol: u32, prev: NdxPrev, ndx: i32)
    ensures
        protocol < 30 ==> index_bytes(protocol, prev, ndx) == enc_int(ndx),
        protocol >= 30 ==> index_bytes(protocol, prev, ndx) == enc_ndx(prev, ndx),
{
}

// ---------------------------------------------------------------------------
// Texts, frames, tokens and layouts
// ---------------------------------------------------------------------------

/// A text goes behind its length: in one byte up to 127 bytes of text, in two,
/// the higher first and marked, beyond.
pub proof fn texts_go_behind_their_length(bytes: Seq<u8>)
    requires
        bytes.len() <= 0x7fff,
    ensures
        ({
            let s = enc_vstring(bytes);
            &&& bytes.len() <= 127 ==> s[0] == bytes.len() && s.skip(1) == bytes
            &&& bytes.len() > 127 ==> s[0] >= 128 && (s[0] - 128) * 256 + s[1] == bytes.len()
                && s.skip(2) == bytes
        }),
{
    let s = enc_vstring(bytes);
    if bytes.len() <= 127 {
        assert(s.skip(1) =~= bytes);
    } else {
        assert(s.skip(2) =~= bytes);
    }
}

/// A frame is its payload behind four bytes: three for the length, the lowest
/// first, and one for what it carries, counted from seven on.
pub proof fn frames_say_length_and_kind(code: MsgCode, payload: Seq<u8>)
    requires
        payload.len() <= 0xff_ffff,
    ensures
        ({
            let f = frame(code, payload);
            &&& f.len() == payload.len() + 4
            &&& f[0] + 0x100 * f[1] + 0x1_0000 * f[2] == payload.len()
            &&& f[3] == 7 + code.code()
            &&& f.skip(4) == payload
        }),
{
    let n = payload.len();
    reveal_with_fuel(le_bytes, 4);
    assert(n / 256 / 256 == n / 0x1_0000);
    assert(le_bytes(n, 3) =~= seq![
        (n % 256) as u8,
        (n / 256 % 256) as u8,
        (n / 0x1_0000 % 256) as u8,
    ]);
    assert(n / 0x1_0000 % 256 == n / 0x1_0000);
    assert(frame(code, payload).skip(4) =~= payload);
}

/// Data that fits a frame goes in one; no data goes in none.
pub proof fn short_data_goes_in_one_frame(data: Seq<u8>)
    ensures
        data.len() == 0 ==> data_frames(data) == Seq::<u8>::empty(),
        0 < data.len() <= 0xff_ffff ==> data_frames(data) == frame(MsgCode::Data, data),
{
}

/// The text of a message loses the line ends behind it, and nothing else.
pub proof fn messages_lose_their_line_ends(s: Seq<char>, k: nat)
    requires
        s.len() > 0 ==> s.last() != '\n' && s.last() != '\r',
    ensures
        trim_line_end(s + Seq::new(k, |i: int| '\n')) == s,
        trim_line_end(s + seq!['\r', '\n']) == s,
    decreases k,
{
    let t = s + Seq::new(k, |i: int| '\n');
    if k > 0 {
        let u = s + Seq::new((k - 1) as nat, |i: int| '\n');
        assert(t.last() == '\n');
        assert(t.drop_last() =~= u);
        messages_lose_their_line_ends(s, (k - 1) as nat);
    } else {
        assert(t =~= s);
    }
    let a = s + seq!['\r', '\n'];
    let b = s + seq!['\r'];
    assert(a.drop_last() =~= b);
    assert(b.drop_last() =~= s);
    reveal_with_fuel(trim_line_end, 3);
}

/// Literal bytes go behind their number; a block of the older copy goes as a
/// negative number, the first one as minus one.
pub proof fn tokens_go_as_numbers(bytes: Seq<u8>, i: i32)
    requires
        bytes.len() <= i32::MAX,
        0 <= i < i32::MAX,
    ensures
        enc_token(TokenModel::Literal(bytes)) == enc_int(bytes.len() as i32) + bytes,
        enc_token(TokenModel::BlockMatch(i)) == enc_int((-1 - i) as i32),
{
}

/// Literal bytes go in pieces of 32768, and what is left in a shorter one;
/// nothing goes for no bytes.
pub proof fn literals_go_in_pieces(s: Seq<u8>)
    ensures
        ({
            let ts = chunk_tokens(s);
            let rest = chunk_rest(s);
            &&& ts.len() == s.len() / 32768
            &&& rest.len() == s.len() % 32768
            &&& rest == s.skip(s.len() - rest.len())
            &&& forall|k: int|
                0 <= k < ts.len() ==> #[trigger] ts[k] == TokenModel::Literal(
                    s.subrange(k * 32768, (k + 1) * 32768),
                )
        }),
        s.len() == 0 ==> literal_token(s) == Seq::<TokenModel>::empty(),
        s.len() > 0 ==> literal_token(s) == seq![TokenModel::Literal(s)],
    decreases s.len(),
{
    let ts = chunk_tokens(s);
    let rest = chunk_rest(s);
    if s.len() >= 32768 {
        let t = s.skip(32768);
        literals_go_in_pieces(t);
        assert(rest =~= s.skip(s.len() - rest.len()));
        assert forall|k: int| 0 <= k < ts.len() implies #[trigger] ts[k] == TokenModel::Literal(
            s.subrange(k * 32768, (k + 1) * 32768),
        ) by {
            if k == 0 {
                assert(s.take(32768) =~= s.subrange(0, 32768));
            } else {
                assert(ts[k] == chunk_tokens(t)[k - 1]);
                assert(t.subrange((k - 1) * 32768, k * 32768) =~= s.subrange(
                    k * 32768,
                    (k + 1) * 32768,
                ));
            }
        }
    } else {
        assert(rest =~= s.skip(0));
    }
}

/// The layout of a file goes as four integers: how many blocks, how long they
/// are, how long their strong checksums are, and how long the last one is.
pub proof fn layouts_go_as_four_integers(h: SumHead)
    ensures
        sum_head_bytes(h).len() == 16,
        sum_head_bytes(h).take(4) == enc_int(h.count),
        sum_head_bytes(h).subrange(4, 8) == enc_int(h.blength),
        sum_head_bytes(h).subrange(8, 12) == enc_int(h.s2length),
        sum_head_bytes(h).skip(12) == enc_int(h.remainder),
{
    integers_go_lowest_byte_first(h.count);
    integers_go_lowest_byte_first(h.blength);
    integers_go_lowest_byte_first(h.s2length);
    integers_go_lowest_byte_first(h.remainder);
    assert(sum_head_bytes(h).take(4) =~= enc_int(h.count));
    assert(sum_head_bytes(h).subrange(4, 8) =~= enc_int(h.blength));
    assert(sum_head_bytes(h).subrange(8, 12) =~= enc_int(h.s2length));
    assert(sum_head_bytes(h).skip(12) =~= enc_int(h.remainder));
}

} // verus!
