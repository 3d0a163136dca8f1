//! Strong checksums and the header in front of a file's block checksums.

use digest::Digest;
use md5::Md5;
use vstd::prelude::*;

use crate::checksum::md4::{classic_digest, md4_classic, md4_digest, md4_modern};
use crate::io::bytes::{
    bits64, le_bytes, le_bytes_of, le_value, lemma_le_bytes_len, lemma_le_bytes_of_value, put_bytes,
    signed32, ByteReader, WireError,
};
use crate::io::parse::{lemma_parse_int, parse_int, Parsed};
use crate::io::varint::{bits64_of, enc_int, read_int, signed32_of, write_int};

verus! {

/// The strong checksums.
#[derive(Debug, Clone, Copy, PartialEq, Eq, Structural)]
pub enum ChecksumType {
    Md4Archaic,
    Md4Busted,
    Md4Old,
    Md4,
    Md5,
    NoSum,
}

/// The checksum of a protocol version.
pub open spec fn protocol_checksum(version: u32) -> ChecksumType {
    if version >= 30 {
        ChecksumType::Md5
    } else if version >= 27 {
        ChecksumType::Md4Old
    } else if version >= 21 {
        ChecksumType::Md4Busted
    } else {
        ChecksumType::Md4Archaic
    }
}

impl ChecksumType {
    /// The checksum of a protocol version.
    pub fn for_protocol(version: u32, _proper_seed_order: bool) -> (t: ChecksumType)
        ensures
            t == protocol_checksum(version),
    {
        if version >= 30 {
            ChecksumType::Md5
        } else if version >= 27 {
            ChecksumType::Md4Old
        } else if version >= 21 {
            ChecksumType::Md4Busted
        } else {
            ChecksumType::Md4Archaic
        }
    }

    /// How many bytes a checksum has.
    pub fn digest_len(&self) -> (n: usize)
        ensures
            n == if *self == ChecksumType::NoSum {
                0int
            } else {
                16int
            },
    {
        match self {
            ChecksumType::NoSum => 0,
            _ => 16,
        }
    }
}

/// The MD5 digest of some bytes, read as a number from its lowest byte on, as
/// the `md5` crate computes it.
pub uninterp spec fn md5_number(data: Seq<u8>) -> nat;

/// The MD5 digest of some bytes: sixteen of them.
pub open spec fn md5_digest(data: Seq<u8>) -> Seq<u8> {
    le_bytes(md5_number(data), 16)
}

/// Calls `Md5::digest` of the `md5` crate.  The digest is sixteen bytes and a
/// function of the bytes alone; how it is computed is left unsaid.
#[verifier::external_body]
fn md5_crate(data: &[u8]) -> (digest: [u8; 16])
    ensures
        le_value(digest@) == md5_number(data@),
{
    Md5::digest(data).into()
}

fn md5_of(data: &[u8]) -> (digest: [u8; 16])
    ensures
        digest@ == md5_digest(data@),
{
    let digest: [u8; 16] = md5_crate(data);
    proof {
        lemma_le_bytes_of_value(digest@);
    }
    digest
}

/// A seed as bytes; no bytes where it is zero.
pub open spec fn seed_bytes(seed: u32) -> Seq<u8> {
    if seed == 0 {
        Seq::empty()
    } else {
        le_bytes(seed as nat, 4)
    }
}

/// The strong checksum of `data`.
pub open spec fn strong_sum(
    data: Seq<u8>,
    ctype: ChecksumType,
    seed: u32,
    proper_seed_order: bool,
) -> Seq<u8> {
    match ctype {
        ChecksumType::Md5 => if proper_seed_order {
            md5_digest(seed_bytes(seed) + data)
        } else {
            md5_digest(data + seed_bytes(seed))
        },
        ChecksumType::Md4Old => md4_digest(data + seed_bytes(seed)),
        ChecksumType::Md4 => md4_digest(data + seed_bytes(seed)),
        ChecksumType::Md4Busted => classic_digest(data + seed_bytes(seed)),
        ChecksumType::Md4Archaic => classic_digest(data + seed_bytes(seed)),
        ChecksumType::NoSum => seq![0u8],
    }
}

/// A computer of strong checksums of one type.
#[derive(Debug, Clone, Copy, PartialEq, Eq, Structural)]
pub struct StrongChecksum {
    pub ctype: ChecksumType,
}

impl StrongChecksum {
    pub fn new(ctype: ChecksumType) -> (s: StrongChecksum)
        ensures
            s.ctype == ctype,
    {
        StrongChecksum { ctype }
    }

    /// The strong checksum of `data`.
    pub fn compute(data: &[u8], ctype: ChecksumType, seed: u32, proper_seed_order: bool) -> (sum: Vec<
        u8,
    >)
        ensures
            sum@ == strong_sum(data@, ctype, seed, proper_seed_order),
            sum@.len() == if ctype == ChecksumType::NoSum {
                1nat
            } else {
                16nat
            },
    {
        let seed_part: Vec<u8> = if seed == 0 {
            Vec::new()
        } else {
            le_bytes_of(seed as u64, 4)
        };
        assert(seed_part@ =~= seed_bytes(seed));
        let in_front: bool = match ctype {
            ChecksumType::Md5 => proper_seed_order,
            _ => false,
        };
        let mut message: Vec<u8> = Vec::new();
        if in_front {
            put_bytes(&mut message, seed_part.as_slice());
            put_bytes(&mut message, data);
            assert(message@ =~= seed_bytes(seed) + data@);
        } else {
            put_bytes(&mut message, data);
            put_bytes(&mut message, seed_part.as_slice());
            assert(message@ =~= data@ + seed_bytes(seed));
        }
        match ctype {
            ChecksumType::Md5 => array_to_vec(&md5_of(message.as_slice())),
            ChecksumType::Md4Old | ChecksumType::Md4 => array_to_vec(
                &md4_modern(message.as_slice()),
            ),
            ChecksumType::Md4Busted | ChecksumType::Md4Archaic => array_to_vec(
                &md4_classic(message.as_slice()),
            ),
            ChecksumType::NoSum => {
                let mut one: Vec<u8> = Vec::new();
                one.push(0);
                assert(one@ =~= seq![0u8]);
                one
            },
        }
    }

    /// The checksum of a whole file, without a seed.
    pub fn file_checksum(data: &[u8], ctype: ChecksumType) -> (sum: Vec<u8>)
        ensures
            sum@ == strong_sum(data@, ctype, 0, false),
    {
        StrongChecksum::compute(data, ctype, 0, false)
    }
}

fn array_to_vec(a: &[u8; 16]) -> (v: Vec<u8>)
    ensures
        v@ == a@,
{
    let mut v: Vec<u8> = Vec::new();
    let mut i: usize = 0;
    while i < 16
        invariant
            i <= 16,
            v@ == a@.take(i as int),
        decreases 16 - i,
    {
        v.push(a[i]);
        i = i + 1;
        assert(v@ =~= a@.take(i as int));
    }
    assert(a@.take(16) =~= a@);
    v
}

/// Without a seed it does not matter where the seed goes.
pub proof fn zero_seed_has_no_order(data: Seq<u8>, ctype: ChecksumType)
    ensures
        strong_sum(data, ctype, 0, false) == strong_sum(data, ctype, 0, true),
{
    assert(seed_bytes(0) + data =~= data);
    assert(data + seed_bytes(0) =~= data);
}

/// Only MD5 knows two places for the seed: the others put it behind the data.
pub proof fn md4_seed_comes_last(data: Seq<u8>, ctype: ChecksumType, seed: u32)
    requires
        ctype != ChecksumType::Md5,
    ensures
        strong_sum(data, ctype, seed, true) == strong_sum(data, ctype, seed, false),
{
}

// ---------------------------------------------------------------------------
// Header of block checksums
// ---------------------------------------------------------------------------

/// What goes over the wire before the checksums of a file's blocks.
#[derive(Debug, Clone, Copy, PartialEq, Eq, Structural)]
pub struct SumHead {
    pub blength: i32,
    pub s2length: i32,
    pub count: i64,
    pub remainder: i32,
}

/// The low 32 bits of a count.
pub open spec fn short_count(count: i64) -> i32 {
    signed32(bits64(count) % 0x1_0000_0000)
}

/// A header on the wire.  Below protocol 27 the checksum length is not sent.
pub open spec fn head_bytes(h: SumHead, protocol: u32) -> Seq<u8> {
    enc_int(short_count(h.count)) + (enc_int(h.blength) + ((if protocol >= 27 {
        enc_int(h.s2length)
    } else {
        Seq::empty()
    }) + enc_int(h.remainder)))
}

/// The header at the front of `buf`.
pub open spec fn parse_head(buf: Seq<u8>, protocol: u32) -> Parsed<SumHead> {
    match parse_int(buf) {
        Err(e) => Err(e),
        Ok((count, r1)) => match parse_int(r1) {
            Err(e) => Err(e),
            Ok((blength, r2)) => {
                let s2: Parsed<i32> = if protocol >= 27 {
                    parse_int(r2)
                } else {
                    Ok((0i32, r2))
                };
                match s2 {
                    Err(e) => Err(e),
                    Ok((s2length, r3)) => match parse_int(r3) {
                        Err(e) => Err(e),
                        Ok((remainder, r4)) => Ok(
                            (SumHead { blength, s2length, count: count as i64, remainder }, r4),
                        ),
                    },
                }
            },
        },
    }
}

/// The quotient of two numbers, rounded towards zero.
pub open spec fn quotient(a: int, b: int) -> int {
    if a >= 0 {
        a / b
    } else {
        -((-a) / b)
    }
}

/// What the quotient of two numbers leaves; it has the sign of the first.
pub open spec fn remainder(a: int, b: int) -> int {
    if a >= 0 {
        a % b
    } else {
        -((-a) % b)
    }
}

/// How many blocks of `blength` bytes cover `size` bytes.
pub open spec fn blocks_for(size: int, blength: int) -> int {
    quotient(size + blength - 1, blength)
}

/// The header for a file, in blocks of the usual length.
pub open spec fn plain_head(size: int, csum_length: i32) -> SumHead {
    SumHead {
        blength: 700,
        s2length: csum_length,
        count: blocks_for(size, 700) as i64,
        remainder: remainder(size, 700) as i32,
    }
}

impl SumHead {
    /// Reads a header.
    pub fn read(r: &mut ByteReader, protocol_version: u32) -> (res: Result<SumHead, WireError>)
        ensures
            match res {
                Ok(h) => parse_head(old(r)@, protocol_version) == Ok::<
                    (SumHead, Seq<u8>),
                    WireError,
                >((h, final(r)@)),
                Err(e) => parse_head(old(r)@, protocol_version) == Err::<
                    (SumHead, Seq<u8>),
                    WireError,
                >(e) && final(r)@ == old(r)@,
            },
    {
        proof {
            reveal(parse_int);
        }
        let start: usize = r.position();
        let count: i32 = match read_int(r) {
            Err(e) => return Err(e),
            Ok(v) => v,
        };
        let blength: i32 = match read_int(r) {
            Err(e) => {
                r.seek(start);
                return Err(e);
            },
            Ok(v) => v,
        };
        let s2length: i32 = if protocol_version >= 27 {
            match read_int(r) {
                Err(e) => {
                    r.seek(start);
                    return Err(e);
                },
                Ok(v) => v,
            }
        } else {
            0
        };
        let remainder: i32 = match read_int(r) {
            Err(e) => {
                r.seek(start);
                return Err(e);
            },
            Ok(v) => v,
        };
        Ok(SumHead { blength, s2length, count: count as i64, remainder })
    }

    /// Writes a header.
    pub fn write(&self, w: &mut Vec<u8>, protocol_version: u32)
        ensures
            final(w)@ == old(w)@ + head_bytes(*self, protocol_version),
    {
        let low: u64 = bits64_of(self.count) % 0x1_0000_0000;
        write_int(w, signed32_of(low as u32));
        write_int(w, self.blength);
        if protocol_version >= 27 {
            write_int(w, self.s2length);
        }
        write_int(w, self.remainder);
        assert(w@ =~= old(w)@ + head_bytes(*self, protocol_version));
    }

    /// The header for a file of `file_size` bytes in blocks of 700.
    pub fn for_file(file_size: i64, csum_length: usize, _protocol_version: u32) -> (h: SumHead)
        requires
            file_size <= i64::MAX - 699,
        ensures
            h == plain_head(file_size as int, csum_length as i32),
            h == (SumHead {
                blength: 700,
                s2length: csum_length as i32,
                count: blocks_for(file_size as int, 700) as i64,
                remainder: remainder(file_size as int, 700) as i32,
            }),
    {
        let blength: i32 = 700;
        let round: i64 = file_size + 699;
        let count: i64 = if round >= 0 {
            round / 700
        } else {
            -((-round) / 700)
        };
        let remainder: i32 = if file_size >= 0 {
            (file_size % 700) as i32
        } else {
            -(((-(file_size as i128)) % 700) as i32)
        };
        SumHead { blength, s2length: csum_length as i32, count, remainder }
    }
}

/// A header that was written is read back, except that the old protocols do
/// not send the checksum length.
pub proof fn head_round_trip(h: SumHead, protocol: u32, rest: Seq<u8>)
    requires
        i32::MIN <= h.count <= i32::MAX,
    ensures
        parse_head(head_bytes(h, protocol) + rest, protocol) == Ok::<(SumHead, Seq<u8>), WireError>(
            (
                SumHead {
                    s2length: if protocol >= 27 {
                        h.s2length
                    } else {
                        0
                    },
                    ..h
                },
                rest,
            ),
        ),
{
    let a = enc_int(short_count(h.count));
    let b = enc_int(h.blength);
    let c = if protocol >= 27 {
        enc_int(h.s2length)
    } else {
        Seq::empty()
    };
    let d = enc_int(h.remainder);
    let buf = head_bytes(h, protocol) + rest;
    assert(buf =~= a + (b + (c + (d + rest))));
    lemma_parse_int(short_count(h.count), b + (c + (d + rest)));
    lemma_parse_int(h.blength, c + (d + rest));
    if protocol >= 27 {
        lemma_parse_int(h.s2length, d + rest);
    } else {
        assert(c + (d + rest) =~= d + rest);
    }
    lemma_parse_int(h.remainder, rest);
    assert(short_count(h.count) == h.count as i32);
}

/// The blocks of a file's header cover the file exactly: all full ones but
/// the last, which holds what is left.
pub proof fn blocks_cover(size: int, blength: int)
    requires
        0 <= size,
        0 < blength,
    ensures
        size == 0 ==> blocks_for(size, blength) == 0,
        size > 0 ==> (blocks_for(size, blength) - 1) * blength < size <= blocks_for(size, blength)
            * blength,
        size % blength == 0 ==> size == blocks_for(size, blength) * blength,
        size % blength != 0 ==> size == (blocks_for(size, blength) - 1) * blength + size % blength,
{
    let q = size / blength;
    let m = size % blength;
    vstd::arithmetic::div_mod::lemma_fundamental_div_mod(size, blength);
    assert(blength * q == q * blength) by (nonlinear_arith);
    assert(0 <= m < blength) by (nonlinear_arith)
        requires
            m == size % blength,
            blength > 0,
    ;
    if m == 0 {
        vstd::arithmetic::div_mod::lemma_fundamental_div_mod_converse(
            size + blength - 1,
            blength,
            q,
            blength - 1,
        );
        assert((q - 1) * blength == q * blength - blength) by (nonlinear_arith);
    } else {
        assert((q + 1) * blength == q * blength + blength) by (nonlinear_arith);
        vstd::arithmetic::div_mod::lemma_fundamental_div_mod_converse(
            size + blength - 1,
            blength,
            q + 1,
            m - 1,
        );
    }
}

/// Every strong checksum has sixteen bytes, but for the one that stands for
/// none.
pub proof fn strong_sums_have_a_length(
    data: Seq<u8>,
    ctype: ChecksumType,
    seed: u32,
    proper_seed_order: bool,
)
    ensures
        strong_sum(data, ctype, seed, proper_seed_order).len() == if ctype == ChecksumType::NoSum {
            1nat
        } else {
            16nat
        },
{
    let a = seed_bytes(seed) + data;
    let b = data + seed_bytes(seed);
    lemma_le_bytes_len(md5_number(a), 16);
    lemma_le_bytes_len(md5_number(b), 16);
    lemma_le_bytes_len(crate::checksum::md4::md4_number(b), 16);
    crate::checksum::md4::classic_padding_fills_blocks(b);
}

} // verus!
