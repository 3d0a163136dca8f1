//! Integers and strings on the wire: fixed-width little-endian integers,
//! the 4-or-12-byte `longint`, the variable-length `varint` and `varlong`,
//! delta-coded file indices and length-prefixed strings.

use vstd::prelude::*;
use vstd::utf8::encode_utf8;

use crate::io::bytes::{
    bits32, bits64, dec_byte, le_bytes, le_bytes_of, le_value, le_value_of, lemma_le_bytes_len,
    lemma_le_value_bound, lemma_le_value_of_bytes, lemma_le_value_push, lemma_le_value_push_zero,
    lemma_pow256, lemma_signed32, lemma_signed64, pow256, put_bytes, read_gives, signed32, signed64,
    ByteReader, WireError,
};
use crate::protocol::constants::NDX_DONE;
use crate::text::{text_of, text_round_trip, utf8_lossy};

verus! {

// ---------------------------------------------------------------------------
// Fixed-width integers
// ---------------------------------------------------------------------------

/// A 16-bit unsigned integer: two bytes, lowest first.
pub open spec fn enc_shortint(x: u16) -> Seq<u8> {
    le_bytes(x as nat, 2)
}

pub open spec fn dec_shortint(buf: Seq<u8>) -> Result<(u16, nat), WireError> {
    if buf.len() >= 2 {
        Ok((le_value(buf.take(2)) as u16, 2))
    } else {
        Err(WireError::UnexpectedEof)
    }
}

/// A 32-bit integer: four bytes of its two's complement, lowest first.
pub open spec fn enc_int(x: i32) -> Seq<u8> {
    le_bytes(bits32(x), 4)
}

pub open spec fn dec_int(buf: Seq<u8>) -> Result<(i32, nat), WireError> {
    if buf.len() >= 4 {
        Ok((signed32(le_value(buf.take(4))), 4))
    } else {
        Err(WireError::UnexpectedEof)
    }
}

/// A 64-bit integer: four bytes where it fits a non-negative 32-bit one,
/// otherwise four bytes of ones and then eight bytes.
pub open spec fn enc_longint(x: i64) -> Seq<u8> {
    if 0 <= x <= 0x7fff_ffff {
        le_bytes(x as nat, 4)
    } else {
        seq![0xffu8, 0xffu8, 0xffu8, 0xffu8] + le_bytes(bits64(x), 8)
    }
}

pub open spec fn dec_longint(buf: Seq<u8>) -> Result<(i64, nat), WireError> {
    match dec_int(buf) {
        Err(e) => Err(e),
        Ok((x, _)) => if x != -1 {
            Ok((x as i64, 4))
        } else if buf.len() >= 12 {
            Ok((signed64(le_value(buf.subrange(4, 12))), 12))
        } else {
            Err(WireError::UnexpectedEof)
        },
    }
}

pub(crate) fn bits32_of(x: i32) -> (v: u32)
    ensures
        v as nat == bits32(x),
{
    assert(x >= 0 ==> x as u32 == x) by (bit_vector);
    assert(x < 0 ==> x as u32 == x + 0x1_0000_0000) by (bit_vector);
    x as u32
}

pub(crate) fn signed32_of(v: u32) -> (x: i32)
    ensures
        x == signed32(v as nat),
{
    assert(v < 0x8000_0000 ==> v as i32 == v) by (bit_vector);
    assert(v >= 0x8000_0000 ==> v as i32 == v - 0x1_0000_0000) by (bit_vector);
    v as i32
}

pub(crate) fn bits64_of(x: i64) -> (v: u64)
    ensures
        v as nat == bits64(x),
{
    assert(x >= 0 ==> x as u64 == x) by (bit_vector);
    assert(x < 0 ==> x as u64 == x + 0x1_0000_0000_0000_0000) by (bit_vector);
    x as u64
}

pub(crate) fn signed64_of(v: u64) -> (x: i64)
    ensures
        x == signed64(v as nat),
{
    assert(v < 0x8000_0000_0000_0000 ==> v as i64 == v) by (bit_vector);
    assert(v >= 0x8000_0000_0000_0000 ==> v as i64 == v - 0x1_0000_0000_0000_0000) by (bit_vector);
    v as i64
}

/// Reads one byte.
pub fn read_byte(r: &mut ByteReader) -> (res: Result<u8, WireError>)
    ensures
        read_gives(dec_byte(old(r)@), old(r)@, final(r)@, res),
        forall|q: nat| #[trigger] final(r).at(q) == old(r).at(q),
{
    r.take_byte()
}

/// Writes one byte.
pub fn write_byte(w: &mut Vec<u8>, x: u8)
    ensures
        final(w)@ == old(w)@ + seq![x],
{
    w.push(x);
    assert(w@ =~= old(w)@ + seq![x]);
}

/// Reads a 16-bit unsigned integer.
pub fn read_shortint(r: &mut ByteReader) -> (res: Result<u16, WireError>)
    ensures
        read_gives(dec_shortint(old(r)@), old(r)@, final(r)@, res),
        forall|q: nat| #[trigger] final(r).at(q) == old(r).at(q),
{
    match r.take_bytes(2) {
        Err(e) => Err(e),
        Ok(b) => {
            proof {
                lemma_le_value_bound(b@);
                lemma_pow256();
            }
            Ok(le_value_of(b.as_slice()) as u16)
        },
    }
}

/// Writes a 16-bit unsigned integer.
pub fn write_shortint(w: &mut Vec<u8>, x: u16)
    ensures
        final(w)@ == old(w)@ + enc_shortint(x),
{
    let b: Vec<u8> = le_bytes_of(x as u64, 2);
    put_bytes(w, b.as_slice());
}

/// Reads a 32-bit integer.
pub fn read_int(r: &mut ByteReader) -> (res: Result<i32, WireError>)
    ensures
        read_gives(dec_int(old(r)@), old(r)@, final(r)@, res),
        forall|q: nat| #[trigger] final(r).at(q) == old(r).at(q),
{
    match r.take_bytes(4) {
        Err(e) => Err(e),
        Ok(b) => {
            proof {
                lemma_le_value_bound(b@);
                lemma_pow256();
            }
            Ok(signed32_of(le_value_of(b.as_slice()) as u32))
        },
    }
}

/// Writes a 32-bit integer.
pub fn write_int(w: &mut Vec<u8>, x: i32)
    ensures
        final(w)@ == old(w)@ + enc_int(x),
{
    let v: u32 = bits32_of(x);
    let b: Vec<u8> = le_bytes_of(v as u64, 4);
    put_bytes(w, b.as_slice());
}

/// Reads a `longint`.
pub fn read_longint(r: &mut ByteReader) -> (res: Result<i64, WireError>)
    ensures
        read_gives(dec_longint(old(r)@), old(r)@, final(r)@, res),
        forall|q: nat| #[trigger] final(r).at(q) == old(r).at(q),
{
    let start: usize = r.position();
    let x: i32 = match read_int(r) {
        Err(e) => return Err(e),
        Ok(x) => x,
    };
    if x != -1 {
        return Ok(x as i64);
    }
    match r.take_bytes(8) {
        Err(e) => {
            r.seek(start);
            Err(e)
        },
        Ok(b) => {
            assert(b@ =~= old(r)@.subrange(4, 12));
            assert(r@ =~= old(r)@.skip(12));
            Ok(signed64_of(le_value_of(b.as_slice())))
        },
    }
}

/// Writes a `longint`.
pub fn write_longint(w: &mut Vec<u8>, x: i64)
    ensures
        final(w)@ == old(w)@ + enc_longint(x),
{
    if x >= 0 && x <= 0x7fff_ffff {
        let b: Vec<u8> = le_bytes_of(x as u64, 4);
        put_bytes(w, b.as_slice());
    } else {
        w.push(0xff);
        w.push(0xff);
        w.push(0xff);
        w.push(0xff);
        let b: Vec<u8> = le_bytes_of(bits64_of(x), 8);
        put_bytes(w, b.as_slice());
        assert(w@ =~= old(w)@ + enc_longint(x));
    }
}

/// A byte that was written is read back, and nothing behind it is touched.
pub proof fn byte_round_trip(x: u8, tail: Seq<u8>)
    ensures
        dec_byte(seq![x] + tail) == Ok::<(u8, nat), WireError>((x, 1)),
{
}

/// A 16-bit integer that was written is read back.
pub proof fn shortint_round_trip(x: u16, tail: Seq<u8>)
    ensures
        dec_shortint(enc_shortint(x) + tail) == Ok::<(u16, nat), WireError>(
            (x, enc_shortint(x).len()),
        ),
{
    lemma_pow256();
    lemma_le_bytes_len(x as nat, 2);
    lemma_le_value_of_bytes(x as nat, 2);
    assert((enc_shortint(x) + tail).take(2) =~= enc_shortint(x));
}

/// A 32-bit integer that was written is read back.
pub proof fn int_round_trip(x: i32, tail: Seq<u8>)
    ensures
        dec_int(enc_int(x) + tail) == Ok::<(i32, nat), WireError>((x, enc_int(x).len())),
        enc_int(x).len() == 4,
{
    lemma_pow256();
    lemma_signed32(x);
    lemma_le_bytes_len(bits32(x), 4);
    lemma_le_value_of_bytes(bits32(x), 4);
    assert((enc_int(x) + tail).take(4) =~= enc_int(x));
}

/// A `longint` that was written is read back.
pub proof fn longint_round_trip(x: i64, tail: Seq<u8>)
    ensures
        dec_longint(enc_longint(x) + tail) == Ok::<(i64, nat), WireError>(
            (x, enc_longint(x).len()),
        ),
{
    let buf = enc_longint(x) + tail;
    lemma_pow256();
    if 0 <= x <= 0x7fff_ffff {
        int_round_trip(x as i32, tail);
        lemma_le_bytes_len(x as nat, 4);
    } else {
        let ones = seq![0xffu8, 0xffu8, 0xffu8, 0xffu8];
        lemma_le_bytes_len(bits64(x), 8);
        lemma_signed64(x);
        lemma_le_value_of_bytes(bits64(x), 8);
        assert(buf.take(4) =~= ones);
        assert(le_value(ones) == 0xffff_ffff) by {
            lemma_le_value_push(ones.take(3), 0xff);
            lemma_le_value_push(ones.take(2), 0xff);
            lemma_le_value_push(ones.take(1), 0xff);
            lemma_le_value_push(ones.take(0), 0xff);
            assert(ones.take(3).push(0xff) =~= ones);
            assert(ones.take(2).push(0xff) =~= ones.take(3));
            assert(ones.take(1).push(0xff) =~= ones.take(2));
            assert(ones.take(0).push(0xff) =~= ones.take(1));
            reveal_with_fuel(pow256, 5);
        }
        assert(buf.subrange(4, 12) =~= le_bytes(bits64(x), 8));
    }
}

// ---------------------------------------------------------------------------
// varint and varlong
// ---------------------------------------------------------------------------

/// The bytes of `s` without its high zero bytes, but at least `min` of them.
pub open spec fn trimmed_len(s: Seq<u8>, min: nat) -> nat
    decreases s.len(),
{
    if s.len() > min && s.last() == 0 {
        trimmed_len(s.drop_last(), min)
    } else {
        s.len()
    }
}

/// How many values the marker byte has room for beside `e` prefix bits and
/// the zero bit that ends them: `2` to the power `7 - e`.
pub open spec fn spare(e: nat) -> nat
    decreases e,
{
    if e == 0 {
        128
    } else {
        spare((e - 1) as nat) / 2
    }
}

/// How many bytes beyond the minimum a marker byte announces: its leading
/// one bits, at most six.
pub open spec fn extra_bytes(marker: u8) -> nat {
    if marker < 0x80 {
        0
    } else if marker < 0xc0 {
        1
    } else if marker < 0xe0 {
        2
    } else if marker < 0xf0 {
        3
    } else if marker < 0xf8 {
        4
    } else if marker < 0xfc {
        5
    } else {
        6
    }
}

/// The variable-length form of the little-endian bytes `s`: a marker byte
/// whose leading ones count the bytes beyond `min`, then the low bytes.  The
/// highest byte shares the marker where it fits beside the prefix bits.
#[verifier::opaque]
pub open spec fn enc_var(s: Seq<u8>, min: nat) -> Seq<u8> {
    let n = trimmed_len(s, min);
    let top = s[n - 1];
    let room = spare((n - min) as nat);
    if top >= room {
        seq![(256 - room) as u8] + s.take(n as int)
    } else {
        seq![(256 - 2 * room + top) as u8] + s.take(n - 1)
    }
}

/// The little-endian bytes that a variable-length integer stands for, with
/// its length on the wire.
pub open spec fn dec_var(buf: Seq<u8>, min: nat, width: nat) -> Result<(Seq<u8>, nat), WireError> {
    if buf.len() < min {
        Err(WireError::UnexpectedEof)
    } else {
        let e = extra_bytes(buf[0]);
        if min + e > width + 1 {
            Err(WireError::IntegerOverflow)
        } else if buf.len() < min + e {
            Err(WireError::UnexpectedEof)
        } else {
            let high = (buf[0] - (256 - 2 * spare(e))) as u8;
            let all = buf.subrange(1, (min + e) as int).push(high);
            Ok((if all.len() > width { all.take(width as int) } else { all }, min + e))
        }
    }
}

/// A 32-bit integer in one to five bytes.
pub open spec fn enc_varint(x: i32) -> Seq<u8> {
    enc_var(le_bytes(bits32(x), 4), 1)
}

pub open spec fn dec_varint(buf: Seq<u8>) -> Result<(i32, nat), WireError> {
    match dec_var(buf, 1, 4) {
        Err(e) => Err(e),
        Ok((s, n)) => Ok((signed32(le_value(s)), n)),
    }
}

/// A 64-bit integer in `min` to nine bytes.
pub open spec fn enc_varlong(x: i64, min: nat) -> Seq<u8> {
    enc_var(le_bytes(bits64(x), 8), min)
}

pub open spec fn dec_varlong(buf: Seq<u8>, min: nat) -> Result<(i64, nat), WireError> {
    match dec_var(buf, min, 8) {
        Err(e) => Err(e),
        Ok((s, n)) => Ok((signed64(le_value(s)), n)),
    }
}

/// Whether the variable-length form of `x` with `min` bytes can be read back:
/// the marker byte counts at most six bytes beyond the minimum.
pub open spec fn varlong_fits(x: i64, min: nat) -> bool {
    ||| 3 <= min <= 8
    ||| min == 2 && bits64(x) < 0x200_0000_0000_0000
    ||| min == 1 && bits64(x) < 0x2_0000_0000_0000
}

proof fn lemma_trimmed_len(s: Seq<u8>, min: nat)
    requires
        1 <= min <= s.len(),
    ensures
        min <= trimmed_len(s, min) <= s.len(),
        trimmed_len(s, min) > min ==> s[trimmed_len(s, min) - 1] != 0,
        le_value(s.take(trimmed_len(s, min) as int)) == le_value(s),
    decreases s.len(),
{
    if s.len() > min && s.last() == 0 {
        let t = s.drop_last();
        lemma_trimmed_len(t, min);
        lemma_le_value_push_zero(t);
        assert(t.push(0) =~= s);
        assert(s.take(trimmed_len(s, min) as int) =~= t.take(trimmed_len(t, min) as int));
    } else {
        assert(s.take(s.len() as int) =~= s);
    }
}

proof fn lemma_spare()
    ensures
        spare(0) == 128,
        spare(1) == 64,
        spare(2) == 32,
        spare(3) == 16,
        spare(4) == 8,
        spare(5) == 4,
        spare(6) == 2,
        spare(7) == 1,
{
    reveal_with_fuel(spare, 9);
}

/// What was written in variable-length form is read back.
proof fn lemma_var_round_trip(s: Seq<u8>, min: nat, tail: Seq<u8>)
    requires
        1 <= min <= s.len() <= 8,
        ({
            let n = trimmed_len(s, min);
            let e = n - min;
            e <= 5 || (e == 6 && s[n - 1] < 2)
        }),
    ensures
        dec_var(enc_var(s, min) + tail, min, s.len()) matches Ok((d, n)) && n == enc_var(
            s,
            min,
        ).len() && le_value(d) == le_value(s),
{
    reveal(enc_var);
    lemma_trimmed_len(s, min);
    lemma_spare();
    let n = trimmed_len(s, min);
    let e = (n - min) as nat;
    let top = s[n - 1];
    let room = spare(e);
    let buf = enc_var(s, min) + tail;
    let body = s.take(n as int);
    if top >= room {
        assert(extra_bytes(buf[0]) == e + 1);
        let all = buf.subrange(1, (min + e + 1) as int).push(0);
        assert(buf.subrange(1, (min + e + 1) as int) =~= body);
        lemma_le_value_push_zero(body);
        if all.len() > s.len() {
            assert(all.take(s.len() as int) =~= body);
        }
    } else {
        assert(extra_bytes(buf[0]) == e);
        assert(buf.subrange(1, (min + e) as int).push(top) =~= body);
    }
}

/// A `varint` that was written is read back, and nothing behind it is touched.
pub proof fn varint_round_trip(x: i32, tail: Seq<u8>)
    ensures
        dec_varint(enc_varint(x) + tail) == Ok::<(i32, nat), WireError>((x, enc_varint(x).len())),
{
    let s = le_bytes(bits32(x), 4);
    lemma_pow256();
    lemma_signed32(x);
    lemma_le_bytes_len(bits32(x), 4);
    lemma_le_value_of_bytes(bits32(x), 4);
    lemma_trimmed_len(s, 1);
    lemma_var_round_trip(s, 1, tail);
}

pub proof fn lemma_varint_len(x: i32)
    ensures
        enc_varint(x).len() >= 1,
{
    reveal(enc_var);
    lemma_le_bytes_len(bits32(x), 4);
    lemma_trimmed_len(le_bytes(bits32(x), 4), 1);
}

proof fn lemma_le_value_top(s: Seq<u8>)
    requires
        s.len() > 0,
    ensures
        le_value(s) >= s.last() * pow256((s.len() - 1) as nat),
{
    lemma_le_value_push(s.drop_last(), s.last());
    assert(s.drop_last().push(s.last()) =~= s);
}

/// A `varlong` that was written is read back, and nothing behind it is touched.
pub proof fn varlong_round_trip(x: i64, min: nat, tail: Seq<u8>)
    requires
        varlong_fits(x, min),
    ensures
        dec_varlong(enc_varlong(x, min) + tail, min) == Ok::<(i64, nat), WireError>(
            (x, enc_varlong(x, min).len()),
        ),
{
    let s = le_bytes(bits64(x), 8);
    lemma_pow256();
    lemma_signed64(x);
    lemma_le_bytes_len(bits64(x), 8);
    lemma_le_value_of_bytes(bits64(x), 8);
    lemma_trimmed_len(s, min);
    let n = trimmed_len(s, min);
    if min < 3 && n - min > 5 {
        let t = s.take(n as int);
        lemma_le_value_top(t);
        assert(t.last() == s[n - 1]);
        reveal_with_fuel(pow256, 9);
        let p = pow256((n - 1) as nat);
        if t.last() >= 2 {
            assert(t.last() * p >= 2 * p) by (nonlinear_arith)
                requires
                    t.last() >= 2,
            ;
        } else {
            assert(t.last() * p >= p) by (nonlinear_arith)
                requires
                    t.last() >= 1,
            ;
        }
    }
    lemma_var_round_trip(s, min, tail);
}

fn spare_of(e: usize) -> (room: u16)
    requires
        e <= 7,
    ensures
        room as nat == spare(e as nat),
        1 <= room <= 128,
{
    proof {
        lemma_spare();
    }
    if e == 0 {
        128
    } else if e == 1 {
        64
    } else if e == 2 {
        32
    } else if e == 3 {
        16
    } else if e == 4 {
        8
    } else if e == 5 {
        4
    } else if e == 6 {
        2
    } else {
        1
    }
}

fn extra_bytes_of(marker: u8) -> (e: usize)
    ensures
        e as nat == extra_bytes(marker),
        e <= 6,
{
    if marker < 0x80 {
        0
    } else if marker < 0xc0 {
        1
    } else if marker < 0xe0 {
        2
    } else if marker < 0xf0 {
        3
    } else if marker < 0xf8 {
        4
    } else if marker < 0xfc {
        5
    } else {
        6
    }
}

fn write_var(w: &mut Vec<u8>, s: Vec<u8>, min: usize)
    requires
        1 <= min <= s@.len() <= 8,
    ensures
        final(w)@ == old(w)@ + enc_var(s@, min as nat),
{
    let mut n: usize = s.len();
    assert(s@.take(n as int) =~= s@);
    while n > min && s[n - 1] == 0
        invariant
            1 <= min <= n <= s@.len() <= 8,
            trimmed_len(s@.take(n as int), min as nat) == trimmed_len(s@, min as nat),
        decreases n,
    {
        assert(s@.take(n as int).drop_last() =~= s@.take(n - 1));
        n = n - 1;
    }
    assert(n == trimmed_len(s@, min as nat));
    let top: u8 = s[n - 1];
    let room: u16 = spare_of(n - min);
    let m: usize = if top as u16 >= room {
        w.push((256 - room) as u8);
        n
    } else {
        w.push((256 - 2 * room + top as u16) as u8);
        n - 1
    };
    let ghost head = w@;
    let mut i: usize = 0;
    while i < m
        invariant
            i <= m <= s@.len(),
            w@ == head + s@.take(i as int),
        decreases m - i,
    {
        w.push(s[i]);
        i = i + 1;
        assert(w@ =~= head + s@.take(i as int));
    }
    reveal(enc_var);
    assert(w@ =~= old(w)@ + enc_var(s@, min as nat));
}

fn read_var(r: &mut ByteReader, min: usize, width: usize) -> (res: Result<Vec<u8>, WireError>)
    requires
        1 <= min <= width <= 8,
    ensures
        match res {
            Ok(v) => dec_var(old(r)@, min as nat, width as nat) matches Ok((d, n)) && v@ == d && n
                <= old(r)@.len() && final(r)@ == old(r)@.skip(n as int),
            Err(e) => dec_var(old(r)@, min as nat, width as nat) == Err::<(Seq<u8>, nat), WireError>(
                e,
            ) && final(r)@ == old(r)@,
        },
        forall|q: nat| #[trigger] final(r).at(q) == old(r).at(q),
{
    proof {
        lemma_spare();
    }
    let start: usize = r.position();
    let head: Vec<u8> = match r.take_bytes(min) {
        Err(e) => return Err(e),
        Ok(b) => b,
    };
    let e: usize = extra_bytes_of(head[0]);
    if min + e > width + 1 {
        r.seek(start);
        return Err(WireError::IntegerOverflow);
    }
    let more: Vec<u8> = match r.take_bytes(e) {
        Err(err) => {
            r.seek(start);
            return Err(err);
        },
        Ok(b) => b,
    };
    let mut all: Vec<u8> = Vec::new();
    let mut i: usize = 1;
    while i < min
        invariant
            1 <= i <= min == head@.len(),
            all@ == head@.subrange(1, i as int),
        decreases min - i,
    {
        all.push(head[i]);
        i = i + 1;
        assert(all@ =~= head@.subrange(1, i as int));
    }
    put_bytes(&mut all, more.as_slice());
    let room: u16 = spare_of(e);
    all.push((head[0] as u16 + 2 * room - 256) as u8);
    assert(all@.drop_last() =~= old(r)@.subrange(1, (min + e) as int));
    assert(all@ =~= old(r)@.subrange(1, (min + e) as int).push(all@.last()));
    assert(r@ =~= old(r)@.skip((min + e) as int));
    all.truncate(width);
    Ok(all)
}

/// Reads a `varint`.
pub fn read_varint(r: &mut ByteReader) -> (res: Result<i32, WireError>)
    ensures
        read_gives(dec_varint(old(r)@), old(r)@, final(r)@, res),
        forall|q: nat| #[trigger] final(r).at(q) == old(r).at(q),
{
    match read_var(r, 1, 4) {
        Err(e) => Err(e),
        Ok(s) => {
            proof {
                lemma_le_value_bound(s@);
                lemma_pow256_monotone(s@.len(), 4);
                lemma_pow256();
            }
            Ok(signed32_of(le_value_of(s.as_slice()) as u32))
        },
    }
}

proof fn lemma_pow256_monotone(a: nat, b: nat)
    requires
        a <= b,
    ensures
        pow256(a) <= pow256(b),
    decreases b,
{
    if a < b {
        lemma_pow256_monotone(a, (b - 1) as nat);
    }
}

/// Writes a `varint`.
pub fn write_varint(w: &mut Vec<u8>, x: i32)
    ensures
        final(w)@ == old(w)@ + enc_varint(x),
{
    let s: Vec<u8> = le_bytes_of(bits32_of(x) as u64, 4);
    write_var(w, s, 1);
}

/// Reads an integer of the protocols from 30 on: a `varint`.
pub fn read_varint30(r: &mut ByteReader) -> (res: Result<i32, WireError>)
    ensures
        read_gives(dec_varint(old(r)@), old(r)@, final(r)@, res),
        forall|q: nat| #[trigger] final(r).at(q) == old(r).at(q),
{
    read_varint(r)
}

/// Writes an integer of the protocols from 30 on: a `varint`.
pub fn write_varint30(w: &mut Vec<u8>, x: i32)
    ensures
        final(w)@ == old(w)@ + enc_varint(x),
{
    write_varint(w, x)
}

/// Reads a `varlong` of at least `min_bytes` bytes.
pub fn read_varlong(r: &mut ByteReader, min_bytes: u8) -> (res: Result<i64, WireError>)
    requires
        1 <= min_bytes <= 8,
    ensures
        read_gives(dec_varlong(old(r)@, min_bytes as nat), old(r)@, final(r)@, res),
        forall|q: nat| #[trigger] final(r).at(q) == old(r).at(q),
{
    match read_var(r, min_bytes as usize, 8) {
        Err(e) => Err(e),
        Ok(s) => Ok(signed64_of(le_value_of(s.as_slice()))),
    }
}

/// Writes a `varlong` of at least `min_bytes` bytes.
pub fn write_varlong(w: &mut Vec<u8>, x: i64, min_bytes: u8)
    requires
        1 <= min_bytes <= 8,
    ensures
        final(w)@ == old(w)@ + enc_varlong(x, min_bytes as nat),
{
    let s: Vec<u8> = le_bytes_of(bits64_of(x), 8);
    write_var(w, s, min_bytes as usize);
}

// ---------------------------------------------------------------------------
// Delta-coded file indices
// ---------------------------------------------------------------------------

/// The last indices of one direction of a connection: the last one that was
/// not negative, and the last negative one without its sign.
#[derive(Clone, Copy, Debug, PartialEq, Eq, Structural)]
pub struct NdxPrev {
    pub pos: i32,
    pub neg: i32,
}

/// What both directions of a connection remember of file indices.
#[derive(Clone, Copy, Debug, PartialEq, Eq, Structural)]
pub struct NdxState {
    pub read: NdxPrev,
    pub write: NdxPrev,
}

/// The state at the start of a connection.
pub open spec fn ndx_start() -> NdxPrev {
    NdxPrev { pos: NDX_DONE, neg: 1 }
}

impl NdxState {
    /// The state at the start of a connection.
    pub fn new() -> (s: NdxState)
        ensures
            s == (NdxState { read: ndx_start(), write: ndx_start() }),
    {
        NdxState { read: NdxPrev { pos: -1, neg: 1 }, write: NdxPrev { pos: -1, neg: 1 } }
    }
}

/// Forgets all indices seen so far.
pub fn reset_ndx_state(state: &mut NdxState)
    ensures
        *final(state) == (NdxState { read: ndx_start(), write: ndx_start() }),
{
    *state = NdxState::new();
}

/// A magnitude `a` that lies `d` above the one before it: one byte for a small
/// step, three for a step below `0x8000`, otherwise five with `a` itself.
pub open spec fn enc_ndx_step(a: int, d: int) -> Seq<u8> {
    if 1 <= d < 0xfe {
        seq![d as u8]
    } else if d < 0 || d > 0x7fff {
        seq![
            0xfeu8,
            (a / 0x100_0000 + 0x80) as u8,
            (a % 256) as u8,
            (a / 256 % 256) as u8,
            (a / 0x1_0000 % 256) as u8,
        ]
    } else {
        seq![0xfeu8, (d / 256) as u8, (d % 256) as u8]
    }
}

/// A file index behind the indices `prev`.
pub open spec fn enc_ndx(prev: NdxPrev, ndx: i32) -> Seq<u8> {
    if ndx == -1 {
        seq![0u8]
    } else if ndx >= 0 {
        enc_ndx_step(ndx as int, ndx - prev.pos)
    } else {
        seq![0xffu8] + enc_ndx_step(-ndx, -ndx - prev.neg)
    }
}

/// What is remembered after the index `ndx`.
pub open spec fn ndx_after(prev: NdxPrev, ndx: i32) -> NdxPrev {
    if ndx == -1 {
        prev
    } else if ndx >= 0 {
        NdxPrev { pos: ndx, ..prev }
    } else {
        NdxPrev { neg: (-ndx) as i32, ..prev }
    }
}

/// The magnitude at the front of `buf`, given the one before it.
pub open spec fn dec_ndx_step(prev: i32, buf: Seq<u8>) -> Result<(i32, nat), WireError> {
    if buf.len() < 1 {
        Err(WireError::UnexpectedEof)
    } else if buf[0] != 0xfe {
        if prev + buf[0] > i32::MAX {
            Err(WireError::IntegerOverflow)
        } else {
            Ok(((prev + buf[0]) as i32, 1))
        }
    } else if buf.len() < 3 {
        Err(WireError::UnexpectedEof)
    } else if buf[1] < 0x80 {
        let d = buf[1] * 256 + buf[2];
        if prev + d > i32::MAX {
            Err(WireError::IntegerOverflow)
        } else {
            Ok(((prev + d) as i32, 3))
        }
    } else if buf.len() < 5 {
        Err(WireError::UnexpectedEof)
    } else {
        Ok(
            (
                ((buf[1] - 0x80) * 0x100_0000 + buf[4] * 0x1_0000 + buf[3] * 256 + buf[2]) as i32,
                5,
            ),
        )
    }
}

/// The file index at the front of `buf`, its length, and what is remembered
/// after it.
pub open spec fn dec_ndx(prev: NdxPrev, buf: Seq<u8>) -> Result<((i32, NdxPrev), nat), WireError> {
    if buf.len() < 1 {
        Err(WireError::UnexpectedEof)
    } else if buf[0] == 0 {
        Ok(((NDX_DONE, prev), 1))
    } else if buf[0] == 0xff {
        match dec_ndx_step(prev.neg, buf.skip(1)) {
            Err(e) => Err(e),
            Ok((a, n)) => if a == i32::MIN {
                Err(WireError::IntegerOverflow)
            } else {
                Ok((((-a) as i32, NdxPrev { neg: a, ..prev }), n + 1))
            },
        }
    } else {
        match dec_ndx_step(prev.pos, buf) {
            Err(e) => Err(e),
            Ok((a, n)) => Ok(((a, NdxPrev { pos: a, ..prev }), n)),
        }
    }
}

/// A file index that was written is read back by a reader that remembers the
/// same indices, and both then remember the same again.
pub proof fn ndx_round_trip(prev: NdxPrev, ndx: i32, tail: Seq<u8>)
    requires
        ndx != i32::MIN,
    ensures
        dec_ndx(prev, enc_ndx(prev, ndx) + tail) == Ok::<((i32, NdxPrev), nat), WireError>(
            ((ndx, ndx_after(prev, ndx)), enc_ndx(prev, ndx).len()),
        ),
{
    let buf = enc_ndx(prev, ndx) + tail;
    if ndx == -1 {
    } else if ndx >= 0 {
        lemma_ndx_step(prev.pos, ndx as int, tail);
    } else {
        lemma_ndx_step(prev.neg, -ndx, tail);
        assert(buf.skip(1) =~= enc_ndx_step(-ndx, -ndx - prev.neg) + tail);
    }
}

proof fn lemma_ndx_step(prev: i32, a: int, tail: Seq<u8>)
    requires
        0 <= a <= i32::MAX,
    ensures
        dec_ndx_step(prev, enc_ndx_step(a, a - prev) + tail) == Ok::<(i32, nat), WireError>(
            (a as i32, enc_ndx_step(a, a - prev).len()),
        ),
        enc_ndx_step(a, a - prev)[0] != 0,
        enc_ndx_step(a, a - prev)[0] != 0xff,
{
    let d = a - prev;
    let code = enc_ndx_step(a, d);
    let buf = code + tail;
    if 1 <= d < 0xfe {
        assert(buf[0] == d as u8);
    } else if d < 0 || d > 0x7fff {
        let top = a / 0x100_0000;
        let high = a / 0x1_0000 % 256;
        let mid = a / 256 % 256;
        let low = a % 256;
        assert(0 <= top < 0x80);
        assert(a == top * 0x100_0000 + high * 0x1_0000 + mid * 256 + low);
        assert(buf[0] == 0xfe && buf[1] == (top + 0x80) as u8 && buf[2] == low as u8 && buf[3]
            == mid as u8 && buf[4] == high as u8);
    } else {
        assert(buf[0] == 0xfe && buf[1] == (d / 256) as u8 && buf[2] == (d % 256) as u8);
        assert(0 <= d / 256 < 0x80);
    }
}

fn read_ndx_step(r: &mut ByteReader, prev: i32) -> (res: Result<i32, WireError>)
    ensures
        read_gives(dec_ndx_step(prev, old(r)@), old(r)@, final(r)@, res),
        forall|q: nat| #[trigger] final(r).at(q) == old(r).at(q),
{
    let start: usize = r.position();
    let first: u8 = match r.take_byte() {
        Err(e) => return Err(e),
        Ok(b) => b,
    };
    if first != 0xfe {
        let v: i64 = prev as i64 + first as i64;
        if v > 0x7fff_ffff {
            r.seek(start);
            return Err(WireError::IntegerOverflow);
        }
        return Ok(v as i32);
    }
    let pair: Vec<u8> = match r.take_bytes(2) {
        Err(e) => {
            r.seek(start);
            return Err(e);
        },
        Ok(b) => b,
    };
    if pair[0] < 0x80 {
        let v: i64 = prev as i64 + pair[0] as i64 * 256 + pair[1] as i64;
        if v > 0x7fff_ffff {
            r.seek(start);
            return Err(WireError::IntegerOverflow);
        }
        assert(r@ =~= old(r)@.skip(3));
        return Ok(v as i32);
    }
    let more: Vec<u8> = match r.take_bytes(2) {
        Err(e) => {
            r.seek(start);
            return Err(e);
        },
        Ok(b) => b,
    };
    assert(r@ =~= old(r)@.skip(5));
    Ok(
        (pair[0] as i32 - 0x80) * 0x100_0000 + more[1] as i32 * 0x1_0000 + more[0] as i32 * 256
            + pair[1] as i32,
    )
}

/// Reads a file index.
pub fn read_ndx(r: &mut ByteReader, state: &mut NdxState) -> (res: Result<i32, WireError>)
    ensures
        match res {
            Ok(ndx) => dec_ndx(old(state).read, old(r)@) matches Ok(((x, after), n)) && x == ndx && n
                <= old(r)@.len() && final(r)@ == old(r)@.skip(n as int) && *final(state) == (
            NdxState { read: after, ..*old(state) }),
            Err(e) => dec_ndx(old(state).read, old(r)@) == Err::<
                ((i32, NdxPrev), nat),
                WireError,
            >(e) && final(r)@ == old(r)@ && *final(state) == *old(state),
        },
        forall|q: nat| #[trigger] final(r).at(q) == old(r).at(q),
{
    let start: usize = r.position();
    let first: u8 = match r.take_byte() {
        Err(e) => return Err(e),
        Ok(b) => b,
    };
    if first == 0 {
        return Ok(NDX_DONE);
    }
    if first == 0xff {
        let a: i32 = match read_ndx_step(r, state.read.neg) {
            Err(e) => {
                r.seek(start);
                return Err(e);
            },
            Ok(a) => a,
        };
        if a == i32::MIN {
            r.seek(start);
            return Err(WireError::IntegerOverflow);
        }
        let ghost n = dec_ndx_step(old(state).read.neg, old(r)@.skip(1))->Ok_0.1;
        assert(r@ =~= old(r)@.skip((n + 1) as int));
        state.read.neg = a;
        Ok(-a)
    } else {
        r.seek(start);
        match read_ndx_step(r, state.read.pos) {
            Err(e) => Err(e),
            Ok(a) => {
                state.read.pos = a;
                Ok(a)
            },
        }
    }
}

fn write_ndx_step(w: &mut Vec<u8>, a: i32, d: i64)
    requires
        a >= 0,
    ensures
        final(w)@ == old(w)@ + enc_ndx_step(a as int, d as int),
{
    if 1 <= d && d < 0xfe {
        w.push(d as u8);
    } else if d < 0 || d > 0x7fff {
        w.push(0xfe);
        w.push((a / 0x100_0000 + 0x80) as u8);
        w.push((a % 256) as u8);
        w.push((a / 256 % 256) as u8);
        w.push((a / 0x1_0000 % 256) as u8);
    } else {
        w.push(0xfe);
        w.push((d / 256) as u8);
        w.push((d % 256) as u8);
    }
    assert(w@ =~= old(w)@ + enc_ndx_step(a as int, d as int));
}

/// Writes a file index.
pub fn write_ndx(w: &mut Vec<u8>, state: &mut NdxState, ndx: i32)
    requires
        ndx != i32::MIN,
    ensures
        final(w)@ == old(w)@ + enc_ndx(old(state).write, ndx),
        *final(state) == (NdxState { write: ndx_after(old(state).write, ndx), ..*old(state) }),
{
    if ndx == NDX_DONE {
        w.push(0);
        assert(w@ =~= old(w)@ + enc_ndx(old(state).write, ndx));
    } else if ndx >= 0 {
        write_ndx_step(w, ndx, ndx as i64 - state.write.pos as i64);
        state.write.pos = ndx;
    } else {
        w.push(0xff);
        write_ndx_step(w, -ndx, -(ndx as i64) - state.write.neg as i64);
        state.write.neg = -ndx;
        assert(w@ =~= old(w)@ + enc_ndx(old(state).write, ndx));
    }
}

// ---------------------------------------------------------------------------
// Length-prefixed strings
// ---------------------------------------------------------------------------

/// A string of at most `0x7fff` bytes behind its length: one byte below
/// `0x80`, otherwise two, highest first, with the top bit set.
pub open spec fn enc_vstring(bytes: Seq<u8>) -> Seq<u8> {
    if bytes.len() > 0x7f {
        seq![(bytes.len() / 256 + 0x80) as u8, (bytes.len() % 256) as u8] + bytes
    } else {
        seq![bytes.len() as u8] + bytes
    }
}

/// The bytes of the string at the front of `buf`.
pub open spec fn dec_vstring(buf: Seq<u8>) -> Result<(Seq<u8>, nat), WireError> {
    if buf.len() < 1 {
        Err(WireError::UnexpectedEof)
    } else if buf[0] < 0x80 {
        if buf.len() < 1 + buf[0] {
            Err(WireError::UnexpectedEof)
        } else {
            Ok((buf.subrange(1, 1 + buf[0]), (1 + buf[0]) as nat))
        }
    } else if buf.len() < 2 {
        Err(WireError::UnexpectedEof)
    } else {
        let n = (buf[0] - 0x80) * 256 + buf[1];
        if buf.len() < 2 + n {
            Err(WireError::UnexpectedEof)
        } else {
            Ok((buf.subrange(2, 2 + n), (2 + n) as nat))
        }
    }
}

/// A string that was written is read back.
pub proof fn vstring_round_trip(chars: Seq<char>, tail: Seq<u8>)
    requires
        encode_utf8(chars).len() <= 0x7fff,
    ensures
        dec_vstring(enc_vstring(encode_utf8(chars)) + tail) matches Ok((b, n)) && text_of(b)
            == chars && n == enc_vstring(encode_utf8(chars)).len(),
{
    let bytes = encode_utf8(chars);
    let buf = enc_vstring(bytes) + tail;
    text_round_trip(chars);
    if bytes.len() > 0x7f {
        assert(buf.subrange(2, (2 + bytes.len()) as int) =~= bytes);
    } else {
        assert(buf.subrange(1, (1 + bytes.len()) as int) =~= bytes);
    }
}

/// Reads a length-prefixed string.
pub fn read_vstring(r: &mut ByteReader) -> (res: Result<String, WireError>)
    ensures
        match res {
            Ok(s) => dec_vstring(old(r)@) matches Ok((b, n)) && s@ == text_of(b) && n
                <= old(r)@.len() && final(r)@ == old(r)@.skip(n as int),
            Err(e) => dec_vstring(old(r)@) == Err::<(Seq<u8>, nat), WireError>(e) && final(r)@
                == old(r)@,
        },
        forall|q: nat| #[trigger] final(r).at(q) == old(r).at(q),
{
    let start: usize = r.position();
    let first: u8 = match r.take_byte() {
        Err(e) => return Err(e),
        Ok(b) => b,
    };
    let mut head: usize = 1;
    let mut n: usize = first as usize;
    if first >= 0x80 {
        let low: u8 = match r.take_byte() {
            Err(e) => {
                r.seek(start);
                return Err(e);
            },
            Ok(b) => b,
        };
        n = (first as usize - 0x80) * 256 + low as usize;
        head = 2;
        assert(r@ =~= old(r)@.skip(2));
    }
    match r.take_bytes(n) {
        Err(e) => {
            r.seek(start);
            Err(e)
        },
        Ok(b) => {
            assert(b@ =~= old(r)@.subrange(head as int, head + n));
            assert(r@ =~= old(r)@.skip(head + n));
            Ok(utf8_lossy(b.as_slice()))
        },
    }
}

/// Writes a length-prefixed string, unless it is too long for its header.
pub fn write_vstring(w: &mut Vec<u8>, s: &str) -> (res: Result<(), WireError>)
    ensures
        match res {
            Ok(_) => encode_utf8(s@).len() <= 0x7fff && final(w)@ == old(w)@ + enc_vstring(
                encode_utf8(s@),
            ),
            Err(e) => e == WireError::StringTooLong && encode_utf8(s@).len() > 0x7fff && final(w)@
                == old(w)@,
        },
{
    let bytes: &[u8] = s.as_bytes();
    let n: usize = bytes.len();
    if n > 0x7fff {
        return Err(WireError::StringTooLong);
    }
    if n > 0x7f {
        w.push((n / 256 + 0x80) as u8);
        w.push((n % 256) as u8);
    } else {
        w.push(n as u8);
    }
    put_bytes(w, bytes);
    assert(w@ =~= old(w)@ + enc_vstring(encode_utf8(s@)));
    Ok(())
}

} // verus!
