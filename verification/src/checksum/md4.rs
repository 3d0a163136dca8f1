//! MD4, as the old protocols use it and as it is published.
//!
//! The protocols below 27 write only 32 bits of the message length and do
//! not pad a message that fills its last block.

use digest::Digest;
use md4::Md4;
use vstd::prelude::*;

use crate::io::bytes::{
    le_bytes, le_bytes_of, le_value, le_value_of, lemma_le_bytes_len, lemma_le_bytes_of_value,
    lemma_le_value_bound, lemma_pow256, put_bytes,
};

verus! {

/// The four words of a digest in progress.
#[derive(Clone, Copy, Debug, PartialEq, Eq, Structural)]
pub struct Md4Words {
    pub a: u32,
    pub b: u32,
    pub c: u32,
    pub d: u32,
}

/// The words before the first block.
pub open spec fn md4_start() -> Md4Words {
    Md4Words { a: 0x67452301, b: 0xefcdab89, c: 0x98badcfe, d: 0x10325476 }
}

/// `x` rotated left by `s` bits.
pub open spec fn rotated(x: u32, s: u32) -> u32 {
    (x << s) | (x >> ((32 - s) as u32))
}

/// The sum of two words, modulo two to the power 32.
pub open spec fn word_sum(x: u32, y: u32) -> u32 {
    ((x + y) % 0x1_0000_0000) as u32
}

/// Which word of the block step `i` uses.
pub open spec fn step_word(i: int) -> int {
    let j = i % 16;
    if i < 16 {
        j
    } else if i < 32 {
        j % 4 * 4 + j / 4
    } else {
        j % 2 * 8 + j / 2 % 2 * 4 + j / 4 % 2 * 2 + j / 8
    }
}

/// By how many bits step `i` rotates.
pub open spec fn step_shift(i: int) -> u32 {
    let j = i % 4;
    if i < 16 {
        if j == 0 {
            3
        } else if j == 1 {
            7
        } else if j == 2 {
            11
        } else {
            19
        }
    } else if i < 32 {
        if j == 0 {
            3
        } else if j == 1 {
            5
        } else if j == 2 {
            9
        } else {
            13
        }
    } else {
        if j == 0 {
            3
        } else if j == 1 {
            9
        } else if j == 2 {
            11
        } else {
            15
        }
    }
}

/// How step `i` combines three words.
pub open spec fn step_mix(i: int, x: u32, y: u32, z: u32) -> u32 {
    if i < 16 {
        (x & y) | (!x & z)
    } else if i < 32 {
        (x & y) | (x & z) | (y & z)
    } else {
        x ^ y ^ z
    }
}

/// What step `i` adds.
pub open spec fn step_constant(i: int) -> u32 {
    if i < 16 {
        0
    } else if i < 32 {
        0x5a827999
    } else {
        0x6ed9eba1
    }
}

/// The words after step `i`.
pub open spec fn md4_step(w: Md4Words, m: Seq<u32>, i: int) -> Md4Words {
    let sum = word_sum(
        word_sum(word_sum(w.a, step_mix(i, w.b, w.c, w.d)), m[step_word(i)]),
        step_constant(i),
    );
    Md4Words { a: w.d, b: rotated(sum, step_shift(i)), c: w.b, d: w.c }
}

/// The words after the first `n` steps.
pub open spec fn md4_steps(w: Md4Words, m: Seq<u32>, n: nat) -> Md4Words
    decreases n,
{
    if n == 0 {
        w
    } else {
        md4_step(md4_steps(w, m, (n - 1) as nat), m, n - 1)
    }
}

/// The sixteen words of a block.
pub open spec fn block_words(block: Seq<u8>) -> Seq<u32> {
    Seq::new(16, |i: int| le_value(block.subrange(4 * i, 4 * i + 4)) as u32)
}

/// The words after one block.
pub open spec fn md4_block(w: Md4Words, block: Seq<u8>) -> Md4Words {
    let v = md4_steps(w, block_words(block), 48);
    Md4Words {
        a: word_sum(v.a, w.a),
        b: word_sum(v.b, w.b),
        c: word_sum(v.c, w.c),
        d: word_sum(v.d, w.d),
    }
}

/// The words after the full blocks of `data`.
pub open spec fn md4_blocks(w: Md4Words, data: Seq<u8>) -> Md4Words
    decreases data.len(),
{
    if data.len() < 64 {
        w
    } else {
        md4_blocks(md4_block(w, data.take(64)), data.skip(64))
    }
}

/// The bytes of the four words.
pub open spec fn word_bytes(w: Md4Words) -> Seq<u8> {
    le_bytes(w.a as nat, 4) + le_bytes(w.b as nat, 4) + le_bytes(w.c as nat, 4) + le_bytes(
        w.d as nat,
        4,
    )
}

/// How many zero bytes stand between the end mark and the length.
pub open spec fn padding_zeros(n: nat) -> nat {
    ((119 - n % 64) % 64) as nat
}

/// A message with its padding: none where it fills its last block, otherwise
/// the end mark, zeros, and the low 32 bits of its length in bits.
pub open spec fn classic_padded(data: Seq<u8>) -> Seq<u8> {
    if data.len() % 64 == 0 {
        data
    } else {
        data + seq![0x80u8] + Seq::new(padding_zeros(data.len()), |i: int| 0u8) + le_bytes(
            data.len() * 8 % 0x1_0000_0000,
            8,
        )
    }
}

/// The digest of the protocols below 27.
pub open spec fn classic_digest(data: Seq<u8>) -> Seq<u8> {
    word_bytes(md4_blocks(md4_start(), classic_padded(data)))
}

/// The MD4 digest of some bytes, read as a number from its lowest byte on, as
/// the `md4` crate computes it.
pub uninterp spec fn md4_number(data: Seq<u8>) -> nat;

/// The published MD4 digest of some bytes: sixteen of them.
pub open spec fn md4_digest(data: Seq<u8>) -> Seq<u8> {
    le_bytes(md4_number(data), 16)
}

/// Calls `Md4::digest` of the `md4` crate.  The digest is sixteen bytes and a
/// function of the bytes alone; how it is computed is left unsaid.
#[verifier::external_body]
fn md4_crate(data: &[u8]) -> (digest: [u8; 16])
    ensures
        le_value(digest@) == md4_number(data@),
{
    Md4::digest(data).into()
}

fn md4_of(data: &[u8]) -> (digest: [u8; 16])
    ensures
        digest@ == md4_digest(data@),
{
    let digest: [u8; 16] = md4_crate(data);
    proof {
        lemma_le_bytes_of_value(digest@);
    }
    digest
}

fn rotate(x: u32, s: u32) -> (r: u32)
    requires
        0 < s < 32,
    ensures
        r == rotated(x, s),
{
    (x << s) | (x >> (32 - s))
}

fn add_words(x: u32, y: u32) -> (r: u32)
    ensures
        r == word_sum(x, y),
{
    x.wrapping_add(y)
}

fn shift_of(i: usize) -> (s: u32)
    requires
        i < 48,
    ensures
        s == step_shift(i as int),
        0 < s < 32,
{
    let j: usize = i % 4;
    if j == 0 {
        3
    } else if i < 16 {
        if j == 1 {
            7
        } else if j == 2 {
            11
        } else {
            19
        }
    } else if i < 32 {
        if j == 1 {
            5
        } else if j == 2 {
            9
        } else {
            13
        }
    } else {
        if j == 1 {
            9
        } else if j == 2 {
            11
        } else {
            15
        }
    }
}

fn word_of(i: usize) -> (k: usize)
    requires
        i < 48,
    ensures
        k == step_word(i as int),
        k < 16,
{
    let j: usize = i % 16;
    if i < 16 {
        j
    } else if i < 32 {
        j % 4 * 4 + j / 4
    } else {
        j % 2 * 8 + j / 2 % 2 * 4 + j / 4 % 2 * 2 + j / 8
    }
}

fn mix(i: usize, x: u32, y: u32, z: u32) -> (r: u32)
    ensures
        r == step_mix(i as int, x, y, z),
{
    if i < 16 {
        (x & y) | (!x & z)
    } else if i < 32 {
        (x & y) | (x & z) | (y & z)
    } else {
        x ^ y ^ z
    }
}

/// The words after one block.
fn compress(w: Md4Words, block: &[u8]) -> (out: Md4Words)
    requires
        block@.len() == 64,
    ensures
        out == md4_block(w, block@),
{
    let mut m: Vec<u32> = Vec::new();
    let mut k: usize = 0;
    while k < 16
        invariant
            k <= 16,
            block@.len() == 64,
            m@ == block_words(block@).take(k as int),
        decreases 16 - k,
    {
        let part: &[u8] = block.split_at(4 * k).1.split_at(4).0;
        assert(part@ =~= block@.subrange(4 * k, 4 * k + 4));
        proof {
            lemma_le_value_bound(part@);
            lemma_pow256();
        }
        m.push(le_value_of(part) as u32);
        k = k + 1;
        assert(m@ =~= block_words(block@).take(k as int));
    }
    assert(m@ =~= block_words(block@));
    let mut v: Md4Words = w;
    let mut i: usize = 0;
    while i < 48
        invariant
            i <= 48,
            m@.len() == 16,
            v == md4_steps(w, m@, i as nat),
        decreases 48 - i,
    {
        let constant: u32 = if i < 16 {
            0
        } else if i < 32 {
            0x5a827999
        } else {
            0x6ed9eba1
        };
        let sum: u32 = add_words(
            add_words(add_words(v.a, mix(i, v.b, v.c, v.d)), m[word_of(i)]),
            constant,
        );
        v = Md4Words { a: v.d, b: rotate(sum, shift_of(i)), c: v.b, d: v.c };
        i = i + 1;
    }
    Md4Words {
        a: add_words(v.a, w.a),
        b: add_words(v.b, w.b),
        c: add_words(v.c, w.c),
        d: add_words(v.d, w.d),
    }
}

fn digest_bytes(w: Md4Words) -> (out: [u8; 16])
    ensures
        out@ == word_bytes(w),
{
    let a: Vec<u8> = le_bytes_of(w.a as u64, 4);
    let b: Vec<u8> = le_bytes_of(w.b as u64, 4);
    let c: Vec<u8> = le_bytes_of(w.c as u64, 4);
    let d: Vec<u8> = le_bytes_of(w.d as u64, 4);
    let out: [u8; 16] = [
        a[0],
        a[1],
        a[2],
        a[3],
        b[0],
        b[1],
        b[2],
        b[3],
        c[0],
        c[1],
        c[2],
        c[3],
        d[0],
        d[1],
        d[2],
        d[3],
    ];
    assert(out@ =~= word_bytes(w));
    out
}

/// The MD4 digest of the protocols below 27.  Any seed is already part of
/// `data_with_seed`.
pub fn md4_classic(data_with_seed: &[u8]) -> (digest: [u8; 16])
    ensures
        digest@ == classic_digest(data_with_seed@),
{
    let n: usize = data_with_seed.len();
    let mut message: Vec<u8> = Vec::new();
    put_bytes(&mut message, data_with_seed);
    if n % 64 != 0 {
        let ghost data = data_with_seed@;
        message.push(0x80);
        let zeros: usize = (119 - n % 64) % 64;
        let ghost head = message@;
        let mut i: usize = 0;
        assert(message@ =~= head + Seq::new(0, |k: int| 0u8));
        while i < zeros
            invariant
                i <= zeros,
                message@ == head + Seq::new(i as nat, |k: int| 0u8),
            decreases zeros - i,
        {
            message.push(0);
            i = i + 1;
            assert(message@ =~= head + Seq::new(i as nat, |k: int| 0u8));
        }
        let bits: u64 = (n % 0x2000_0000) as u64 * 8;
        assert(bits as nat == data.len() * 8 % 0x1_0000_0000);
        let tail: Vec<u8> = le_bytes_of(bits, 8);
        put_bytes(&mut message, tail.as_slice());
        assert(message@ =~= classic_padded(data));
    } else {
        assert(message@ =~= classic_padded(data_with_seed@));
    }
    let mut w: Md4Words = Md4Words { a: 0x67452301, b: 0xefcdab89, c: 0x98badcfe, d: 0x10325476 };
    let mut rest: &[u8] = message.as_slice();
    while rest.len() >= 64
        invariant
            md4_blocks(w, rest@) == md4_blocks(md4_start(), message@),
        decreases rest@.len(),
    {
        let parts: (&[u8], &[u8]) = rest.split_at(64);
        assert(parts.0@ =~= rest@.take(64));
        assert(parts.1@ =~= rest@.skip(64));
        w = compress(w, parts.0);
        rest = parts.1;
    }
    digest_bytes(w)
}

/// The published MD4 digest, of the protocols from 27 on.  Any seed is already
/// part of `data_with_seed`.
pub fn md4_modern(data_with_seed: &[u8]) -> (digest: [u8; 16])
    ensures
        digest@ == md4_digest(data_with_seed@),
{
    md4_of(data_with_seed)
}

proof fn lemma_word_bytes_len(w: Md4Words)
    ensures
        word_bytes(w).len() == 16,
{
    lemma_le_bytes_len(w.a as nat, 4);
    lemma_le_bytes_len(w.b as nat, 4);
    lemma_le_bytes_len(w.c as nat, 4);
    lemma_le_bytes_len(w.d as nat, 4);
}

proof fn lemma_padded_len(data: Seq<u8>)
    ensures
        classic_padded(data).len() % 64 == 0,
{
    lemma_le_bytes_len(data.len() * 8 % 0x1_0000_0000, 8);
}

/// The padding of the old protocols fills the last block, and the digest of a
/// message that fills its last block is that of the bare blocks.
pub proof fn classic_padding_fills_blocks(data: Seq<u8>)
    ensures
        classic_padded(data).len() % 64 == 0,
        data.len() % 64 == 0 ==> classic_digest(data) == word_bytes(md4_blocks(md4_start(), data)),
        classic_digest(data).len() == 16,
{
    lemma_padded_len(data);
    lemma_word_bytes_len(md4_blocks(md4_start(), classic_padded(data)));
}

} // verus!
