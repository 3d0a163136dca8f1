//! Reading one value after another: what a reader makes of the front of a
//! byte sequence, and what it leaves.

use vstd::prelude::*;

use crate::io::bytes::{dec_byte, WireError};
use crate::io::varint::{
    byte_round_trip, dec_int, dec_shortint, dec_varint, dec_varlong, enc_int,
    enc_shortint, enc_varint, enc_varlong, int_round_trip, shortint_round_trip, varint_round_trip,
    varlong_fits, varlong_round_trip,
};

verus! {

/// A value and the bytes behind it, or the error that stopped the reader.
pub type Parsed<V> = Result<(V, Seq<u8>), WireError>;

/// The value at the front of `buf` and the bytes behind it.
pub open spec fn parsed<V>(decoded: Result<(V, nat), WireError>, buf: Seq<u8>) -> Parsed<V> {
    match decoded {
        Ok((v, n)) => Ok((v, buf.skip(n as int))),
        Err(e) => Err(e),
    }
}

#[verifier::opaque]
pub open spec fn parse_byte(buf: Seq<u8>) -> Parsed<u8> {
    parsed(dec_byte(buf), buf)
}

#[verifier::opaque]
pub open spec fn parse_shortint(buf: Seq<u8>) -> Parsed<u16> {
    parsed(dec_shortint(buf), buf)
}

#[verifier::opaque]
pub open spec fn parse_int(buf: Seq<u8>) -> Parsed<i32> {
    parsed(dec_int(buf), buf)
}

#[verifier::opaque]
pub open spec fn parse_varint(buf: Seq<u8>) -> Parsed<i32> {
    parsed(dec_varint(buf), buf)
}

#[verifier::opaque]
pub open spec fn parse_varlong(buf: Seq<u8>, min: nat) -> Parsed<i64> {
    parsed(dec_varlong(buf, min), buf)
}

/// The first `n` bytes of `buf`.
#[verifier::opaque]
pub open spec fn parse_bytes(buf: Seq<u8>, n: int) -> Parsed<Seq<u8>> {
    if 0 <= n <= buf.len() {
        Ok((buf.take(n), buf.skip(n)))
    } else {
        Err(WireError::UnexpectedEof)
    }
}

/// What a reader that can stop half-way owes: the value and what is left, or
/// the error.
pub open spec fn parse_gives<V>(p: Parsed<V>, after: Seq<u8>, res: Result<V, WireError>) -> bool {
    match res {
        Ok(v) => p == Ok::<(V, Seq<u8>), WireError>((v, after)),
        Err(e) => p == Err::<(V, Seq<u8>), WireError>(e),
    }
}

pub proof fn lemma_parse_byte(x: u8, tail: Seq<u8>)
    ensures
        parse_byte(seq![x] + tail) == Ok::<(u8, Seq<u8>), WireError>((x, tail)),
{
    reveal(parse_byte);
    byte_round_trip(x, tail);
    assert((seq![x] + tail).skip(1) =~= tail);
}

pub proof fn lemma_parse_shortint(x: u16, tail: Seq<u8>)
    ensures
        parse_shortint(enc_shortint(x) + tail) == Ok::<(u16, Seq<u8>), WireError>((x, tail)),
{
    reveal(parse_shortint);
    shortint_round_trip(x, tail);
    assert((enc_shortint(x) + tail).skip(enc_shortint(x).len() as int) =~= tail);
}

pub proof fn lemma_parse_int(x: i32, tail: Seq<u8>)
    ensures
        parse_int(enc_int(x) + tail) == Ok::<(i32, Seq<u8>), WireError>((x, tail)),
{
    reveal(parse_int);
    int_round_trip(x, tail);
    assert((enc_int(x) + tail).skip(enc_int(x).len() as int) =~= tail);
}

pub proof fn lemma_parse_varint(x: i32, tail: Seq<u8>)
    ensures
        parse_varint(enc_varint(x) + tail) == Ok::<(i32, Seq<u8>), WireError>((x, tail)),
{
    reveal(parse_varint);
    varint_round_trip(x, tail);
    assert((enc_varint(x) + tail).skip(enc_varint(x).len() as int) =~= tail);
}

pub proof fn lemma_parse_varlong(x: i64, min: nat, tail: Seq<u8>)
    requires
        varlong_fits(x, min),
    ensures
        parse_varlong(enc_varlong(x, min) + tail, min) == Ok::<(i64, Seq<u8>), WireError>(
            (x, tail),
        ),
{
    reveal(parse_varlong);
    varlong_round_trip(x, min, tail);
    assert((enc_varlong(x, min) + tail).skip(enc_varlong(x, min).len() as int) =~= tail);
}

pub proof fn lemma_parse_bytes(b: Seq<u8>, tail: Seq<u8>)
    ensures
        parse_bytes(b + tail, b.len() as int) == Ok::<(Seq<u8>, Seq<u8>), WireError>((b, tail)),
{
    reveal(parse_bytes);
    assert((b + tail).take(b.len() as int) =~= b);
    assert((b + tail).skip(b.len() as int) =~= tail);
}

} // verus!
