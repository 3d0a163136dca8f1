//! The rolling checksum that finds blocks of a file at any offset.
//!
//! A byte counts as a signed number.  One half of the checksum is the sum of
//! the bytes, the other the sum of all the sums on the way.

use vstd::prelude::*;

verus! {

/// A byte as a signed number.
pub open spec fn signed_byte(b: u8) -> int {
    if b < 128 {
        b as int
    } else {
        b - 256
    }
}

/// The sum of the bytes of `data`.
pub open spec fn byte_sum(data: Seq<u8>) -> int
    decreases data.len(),
{
    if data.len() == 0 {
        0
    } else {
        byte_sum(data.drop_last()) + signed_byte(data.last())
    }
}

/// The sum of the byte sums of all the non-empty prefixes of `data`.
pub open spec fn prefix_sum(data: Seq<u8>) -> int
    decreases data.len(),
{
    if data.len() == 0 {
        0
    } else {
        prefix_sum(data.drop_last()) + byte_sum(data)
    }
}

/// The two halves of a checksum in one number.
pub open spec fn packed(s1: int, s2: int) -> u32 {
    (s1 % 0x1_0000 + (s2 % 0x1_0000) * 0x1_0000) as u32
}

/// The rolling checksum of `data`.
pub open spec fn rolling_sum(data: Seq<u8>) -> u32 {
    packed(byte_sum(data), prefix_sum(data))
}

/// A byte as a signed number, modulo two to the power 32.
fn extended(b: u8) -> (v: u32)
    ensures
        v as int == signed_byte(b) % 0x1_0000_0000,
{
    if b < 128 {
        b as u32
    } else {
        b as u32 + 0xffff_ff00
    }
}

fn pack(s1: u32, s2: u32) -> (v: u32)
    ensures
        v == packed(s1 as int, s2 as int),
{
    s1 % 0x1_0000 + s2 % 0x1_0000 * 0x1_0000
}

/// What is congruent modulo two to the power 32 packs to the same number.
proof fn lemma_packed(a: u32, b: u32, x: int, y: int)
    requires
        a as int == x % 0x1_0000_0000,
        b as int == y % 0x1_0000_0000,
    ensures
        packed(a as int, b as int) == packed(x, y),
{
    lemma_mod_16(x);
    lemma_mod_16(y);
}

proof fn lemma_mod_16(x: int)
    ensures
        (x % 0x1_0000_0000) % 0x1_0000 == x % 0x1_0000,
{
}

/// The rolling checksum of `data`.
pub fn checksum1(data: &[u8]) -> (sum: u32)
    ensures
        sum == rolling_sum(data@),
{
    let mut s1: u32 = 0;
    let mut s2: u32 = 0;
    let mut i: usize = 0;
    assert(data@.take(0) =~= Seq::<u8>::empty());
    while i < data.len()
        invariant
            i <= data@.len(),
            s1 as int == byte_sum(data@.take(i as int)) % 0x1_0000_0000,
            s2 as int == prefix_sum(data@.take(i as int)) % 0x1_0000_0000,
        decreases data@.len() - i,
    {
        let v: u32 = extended(data[i]);
        let ghost head = data@.take(i as int);
        let ghost next = data@.take(i + 1);
        assert(next.drop_last() =~= head);
        assert(next.last() == data@[i as int]);
        s1 = s1.wrapping_add(v);
        s2 = s2.wrapping_add(s1);
        i = i + 1;
    }
    proof {
        assert(data@.take(i as int) =~= data@);
        lemma_packed(s1, s2, byte_sum(data@), prefix_sum(data@));
    }
    pack(s1, s2)
}

/// The state of a checksum over a window that slides byte by byte.
#[derive(Clone, Copy, Debug, PartialEq, Eq, Structural)]
pub struct RollingChecksum {
    pub s1: u32,
    pub s2: u32,
    /// How many bytes the window holds.
    pub count: u32,
}

impl Default for RollingChecksum {
    fn default() -> (c: RollingChecksum)
        ensures
            c == (RollingChecksum { s1: 0, s2: 0, count: 0 }),
    {
        RollingChecksum::new()
    }
}

impl RollingChecksum {
    /// Whether the state is that of the window `window`.
    pub open spec fn tracks(self, window: Seq<u8>) -> bool {
        &&& self.count == window.len()
        &&& self.s1 as int % 0x1_0000 == byte_sum(window) % 0x1_0000
        &&& self.s2 as int % 0x1_0000 == prefix_sum(window) % 0x1_0000
    }

    /// The state after one byte has left the window in front and another has
    /// come in behind.
    pub open spec fn rolled(self, old_byte: u8, new_byte: u8) -> RollingChecksum {
        let s1 = (self.s1 - signed_byte(old_byte) + signed_byte(new_byte)) % 0x1_0000_0000;
        RollingChecksum {
            s1: s1 as u32,
            s2: ((self.s2 - self.count * signed_byte(old_byte) + s1) % 0x1_0000_0000) as u32,
            count: self.count,
        }
    }

    /// The state of the empty window.
    pub fn new() -> (c: RollingChecksum)
        ensures
            c == (RollingChecksum { s1: 0, s2: 0, count: 0 }),
            c.tracks(Seq::empty()),
    {
        RollingChecksum { s1: 0, s2: 0, count: 0 }
    }

    /// Empties the window.
    pub fn reset(&mut self)
        ensures
            *final(self) == (RollingChecksum { s1: 0, s2: 0, count: 0 }),
    {
        self.s1 = 0;
        self.s2 = 0;
        self.count = 0;
    }

    /// Takes `data` as the window.
    pub fn init(&mut self, data: &[u8])
        ensures
            final(self).s1 as int == byte_sum(data@) % 0x1_0000,
            final(self).s2 as int == prefix_sum(data@) % 0x1_0000,
            final(self).count == data@.len() as u32,
            data@.len() <= u32::MAX ==> final(self).tracks(data@),
    {
        let sum: u32 = checksum1(data);
        self.s1 = sum % 0x1_0000;
        self.s2 = sum / 0x1_0000;
        self.count = data.len() as u32;
    }

    /// Slides the window by one byte: `old_byte` leaves it, `new_byte` comes in.
    pub fn roll(&mut self, old_byte: u8, new_byte: u8)
        ensures
            *final(self) == old(self).rolled(old_byte, new_byte),
    {
        let out: u32 = extended(old_byte);
        let come: u32 = extended(new_byte);
        let k: u32 = self.count;
        let product: u32 = k.wrapping_mul(out);
        let s1: u32 = self.s1.wrapping_sub(out).wrapping_add(come);
        let s2: u32 = self.s2.wrapping_sub(product).wrapping_add(s1);
        proof {
            lemma_s1(self.s1, out, come, signed_byte(old_byte), signed_byte(new_byte), s1);
            lemma_product(k as int, out as int, signed_byte(old_byte));
            lemma_s2(self.s2, product, s1, k * signed_byte(old_byte), s2);
        }
        self.s1 = s1;
        self.s2 = s2;
    }

    /// The checksum of the window.
    pub fn value(&self) -> (v: u32)
        ensures
            v == packed(self.s1 as int, self.s2 as int),
    {
        pack(self.s1, self.s2)
    }

    /// The two halves of the checksum.
    pub fn s1_s2(&self) -> (halves: (u16, u16))
        ensures
            halves.0 as int == self.s1 as int % 0x1_0000,
            halves.1 as int == self.s2 as int % 0x1_0000,
    {
        ((self.s1 % 0x1_0000) as u16, (self.s2 % 0x1_0000) as u16)
    }
}

proof fn lemma_s1(s1: u32, out: u32, come: u32, old_b: int, new_b: int, res: u32)
    requires
        -128 <= old_b < 128,
        -128 <= new_b < 128,
        out as int == old_b % 0x1_0000_0000,
        come as int == new_b % 0x1_0000_0000,
        res == s1.wrapping_sub(out).wrapping_add(come),
    ensures
        res as int == (s1 - old_b + new_b) % 0x1_0000_0000,
{
}

proof fn lemma_s2(s2: u32, product: u32, s1: u32, p: int, res: u32)
    requires
        product as int == p % 0x1_0000_0000,
        res == s2.wrapping_sub(product).wrapping_add(s1),
    ensures
        res as int == (s2 - p + s1) % 0x1_0000_0000,
{
    vstd::arithmetic::div_mod::lemma_sub_mod_noop_right(s2 + s1, p, 0x1_0000_0000);
    assert((s2 + s1 - p) == (s2 - p + s1));
    assert(res as int == (s2 + s1 - product) % 0x1_0000_0000);
}

proof fn lemma_product(k: int, out: int, b: int)
    requires
        out == b % 0x1_0000_0000,
    ensures
        (k * out) % 0x1_0000_0000 == (k * b) % 0x1_0000_0000,
{
    vstd::arithmetic::div_mod::lemma_mul_mod_noop_right(k, b, 0x1_0000_0000);
}

// ---------------------------------------------------------------------------
// Laws
// ---------------------------------------------------------------------------

proof fn lemma_sum_front(data: Seq<u8>)
    requires
        data.len() > 0,
    ensures
        byte_sum(data) == signed_byte(data[0]) + byte_sum(data.skip(1)),
        prefix_sum(data) == data.len() * signed_byte(data[0]) + prefix_sum(data.skip(1)),
    decreases data.len(),
{
    let rest = data.skip(1);
    if rest.len() == 0 {
        assert(data.drop_last() =~= Seq::<u8>::empty());
        assert(rest =~= Seq::<u8>::empty());
        assert(byte_sum(data.drop_last()) == 0 && byte_sum(rest) == 0);
        assert(prefix_sum(data.drop_last()) == 0 && prefix_sum(rest) == 0);
        assert(data.last() == data[0]);
        assert(data.len() * signed_byte(data[0]) == signed_byte(data[0])) by (nonlinear_arith)
            requires
                data.len() == 1,
        ;
    } else {
        let head = data.drop_last();
        lemma_sum_front(head);
        assert(head.skip(1) =~= rest.drop_last());
        assert(rest.last() == data.last());
        let b = signed_byte(data[0]);
        let n = data.len() as int;
        assert(n * b == (n - 1) * b + b) by (nonlinear_arith);
    }
}

/// Sliding the window keeps the checksum that of the bytes in the window.
pub proof fn rolling_keeps_track(c: RollingChecksum, window: Seq<u8>, new_byte: u8)
    requires
        window.len() > 0,
        c.tracks(window),
    ensures
        c.rolled(window[0], new_byte).tracks(window.skip(1).push(new_byte)),
{
    let next = window.skip(1).push(new_byte);
    let old_b = signed_byte(window[0]);
    let new_b = signed_byte(new_byte);
    lemma_sum_front(window);
    assert(next.drop_last() =~= window.skip(1));
    assert(byte_sum(next) == byte_sum(window) - old_b + new_b);
    assert(prefix_sum(next) == prefix_sum(window) - window.len() * old_b + byte_sum(next));
    let s1 = c.s1 - old_b + new_b;
    let r = c.rolled(window[0], new_byte);
    lemma_congruent(c.s1 as int, byte_sum(window), new_b - old_b);
    lemma_mod_16(s1);
    assert(r.s1 as int % 0x1_0000 == byte_sum(next) % 0x1_0000);
    let kb = c.count * old_b;
    assert(kb == window.len() * old_b);
    let s2 = c.s2 - kb + r.s1;
    lemma_mod_16(s2);
    lemma_congruent(c.s2 as int, prefix_sum(window), -kb);
    lemma_congruent(r.s1 as int, byte_sum(next), c.s2 - kb);
    lemma_congruent(c.s2 - kb, prefix_sum(window) - kb, byte_sum(next));
    assert(r.s2 as int % 0x1_0000 == prefix_sum(next) % 0x1_0000);
}

/// Numbers that leave the same remainder do so when the same is added to both.
proof fn lemma_congruent(a: int, b: int, d: int)
    requires
        a % 0x1_0000 == b % 0x1_0000,
    ensures
        (a + d) % 0x1_0000 == (b + d) % 0x1_0000,
{
    let q = a / 0x1_0000 - b / 0x1_0000;
    assert(a + d == b + d + 0x1_0000 * q);
    vstd::arithmetic::div_mod::lemma_mod_multiples_vanish(q, b + d, 0x1_0000);
}

/// The checksum of a window that is tracked is the checksum of its bytes.
pub proof fn tracked_value(c: RollingChecksum, window: Seq<u8>)
    requires
        c.tracks(window),
    ensures
        packed(c.s1 as int, c.s2 as int) == rolling_sum(window),
{
}

} // verus!
