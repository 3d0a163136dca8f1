//! Byte cursors, little-endian numbers and the errors a wire reader reports.

use vstd::prelude::*;

verus! {

/// What can be wrong with the bytes a peer sent, or with a value that has no
/// wire form.
#[derive(Clone, Copy, Debug, PartialEq, Eq, Structural)]
pub enum WireError {
    /// The input ended inside an encoded value.
    UnexpectedEof,
    /// A variable-length integer announces more bytes than its type has.
    IntegerOverflow,
    /// A string is longer than its length header can say.
    StringTooLong,
    /// A length or a count is negative.
    NegativeLength,
    /// A shared prefix is longer than the name it refers to.
    BadPrefix,
    /// A hard-link index lies outside the entries received so far.
    BadHardLink,
    /// A multiplex header carries a tag below the base tag.
    BadTag,
    /// A multiplex header carries an unknown message code.
    UnknownMessage,
    /// A multiplex message is longer than its length field can say.
    MessageTooLong,
    /// A token index is negative or out of range.
    BadToken,
    /// The compressing stream failed.
    DeflateFailed,
    /// The compressing stream neither takes input nor makes output.
    DeflateStalled,
    /// The compressing stream did not end its flush as it should.
    DeflateTrailer,
    /// The compressed bytes are not valid.
    InflateFailed,
    /// The decompressing stream neither takes input nor makes output.
    InflateStalled,
}

/// The number that little-endian bytes stand for.
pub open spec fn le_value(s: Seq<u8>) -> nat
    decreases s.len(),
{
    if s.len() == 0 {
        0
    } else {
        s[0] as nat + 256 * le_value(s.skip(1))
    }
}

/// The `n` low bytes of `v`, lowest first.
pub open spec fn le_bytes(v: nat, n: nat) -> Seq<u8>
    decreases n,
{
    if n == 0 {
        Seq::empty()
    } else {
        seq![(v % 256) as u8] + le_bytes(v / 256, (n - 1) as nat)
    }
}

/// `256` to the power `n`.
pub open spec fn pow256(n: nat) -> nat
    decreases n,
{
    if n == 0 {
        1
    } else {
        256 * pow256((n - 1) as nat)
    }
}

/// The two's-complement bit pattern of a 32-bit integer, as a number.
pub open spec fn bits32(x: i32) -> nat {
    if x >= 0 {
        x as nat
    } else {
        (x + 0x1_0000_0000) as nat
    }
}

/// The 32-bit integer whose two's-complement pattern is `v`.
pub open spec fn signed32(v: nat) -> i32 {
    if v < 0x8000_0000 {
        v as i32
    } else {
        (v - 0x1_0000_0000) as i32
    }
}

/// The two's-complement bit pattern of a 64-bit integer, as a number.
pub open spec fn bits64(x: i64) -> nat {
    if x >= 0 {
        x as nat
    } else {
        (x + 0x1_0000_0000_0000_0000) as nat
    }
}

/// The 64-bit integer whose two's-complement pattern is `v`.
pub open spec fn signed64(v: nat) -> i64 {
    if v < 0x8000_0000_0000_0000 {
        v as i64
    } else {
        (v - 0x1_0000_0000_0000_0000) as i64
    }
}

pub proof fn lemma_pow256()
    ensures
        pow256(1) == 0x100,
        pow256(2) == 0x1_0000,
        pow256(3) == 0x100_0000,
        pow256(4) == 0x1_0000_0000,
        pow256(8) == 0x1_0000_0000_0000_0000,
{
    reveal_with_fuel(pow256, 9);
}

pub proof fn lemma_le_bytes_len(v: nat, n: nat)
    ensures
        le_bytes(v, n).len() == n,
    decreases n,
{
    if n > 0 {
        lemma_le_bytes_len(v / 256, (n - 1) as nat);
    }
}

pub proof fn lemma_le_value_bound(s: Seq<u8>)
    ensures
        le_value(s) < pow256(s.len()),
    decreases s.len(),
{
    if s.len() > 0 {
        lemma_le_value_bound(s.skip(1));
    }
}

/// Reading the bytes of a number gives the number back.
pub proof fn lemma_le_value_of_bytes(v: nat, n: nat)
    requires
        v < pow256(n),
    ensures
        le_value(le_bytes(v, n)) == v,
    decreases n,
{
    if n > 0 {
        lemma_le_value_of_bytes(v / 256, (n - 1) as nat);
        lemma_le_bytes_len(v / 256, (n - 1) as nat);
        assert(le_bytes(v, n).skip(1) =~= le_bytes(v / 256, (n - 1) as nat));
    }
}

/// The bytes of the number that some bytes stand for are those bytes.
pub proof fn lemma_le_bytes_of_value(s: Seq<u8>)
    ensures
        le_bytes(le_value(s), s.len()) == s,
    decreases s.len(),
{
    if s.len() > 0 {
        let t = s.skip(1);
        lemma_le_bytes_of_value(t);
        assert(le_value(s) / 256 == le_value(t));
        assert(le_value(s) % 256 == s[0] as nat);
        assert(le_bytes(le_value(s), s.len()) =~= s) by {
            assert(s =~= seq![s[0]] + t);
        }
    } else {
        assert(le_bytes(0, 0) =~= s);
    }
}

/// High zero bytes do not change the number.
pub proof fn lemma_le_value_push_zero(s: Seq<u8>)
    ensures
        le_value(s.push(0)) == le_value(s),
    decreases s.len(),
{
    if s.len() > 0 {
        lemma_le_value_push_zero(s.skip(1));
        assert(s.push(0).skip(1) =~= s.skip(1).push(0));
    } else {
        assert(s.push(0).skip(1) =~= Seq::<u8>::empty());
        reveal_with_fuel(le_value, 2);
    }
}

/// The number that `s` stands for, in terms of its highest byte.
pub proof fn lemma_le_value_push(s: Seq<u8>, b: u8)
    ensures
        le_value(s.push(b)) == le_value(s) + b * pow256(s.len()),
    decreases s.len(),
{
    if s.len() > 0 {
        lemma_le_value_push(s.skip(1), b);
        assert(s.push(b).skip(1) =~= s.skip(1).push(b));
        let k = pow256((s.len() - 1) as nat);
        assert(256 * (b * k) == b * (256 * k)) by (nonlinear_arith);
    } else {
        assert(s.push(b).skip(1) =~= Seq::<u8>::empty());
        assert(le_value(Seq::<u8>::empty()) == 0);
        assert(le_value(s.push(b)) == b as nat);
        assert(pow256(0) == 1);
    }
}

pub proof fn lemma_signed32(x: i32)
    ensures
        bits32(x) < 0x1_0000_0000,
        signed32(bits32(x)) == x,
{
}

pub proof fn lemma_signed64(x: i64)
    ensures
        bits64(x) < 0x1_0000_0000_0000_0000,
        signed64(bits64(x)) == x,
{
}

/// What a reader of one value owes: the value and the bytes behind it, or
/// the error with nothing consumed.
pub open spec fn read_gives<V>(
    decoded: Result<(V, nat), WireError>,
    before: Seq<u8>,
    after: Seq<u8>,
    res: Result<V, WireError>,
) -> bool {
    match res {
        Ok(v) => decoded matches Ok((w, n)) && w == v && n <= before.len() && after == before.skip(
            n as int,
        ),
        Err(e) => decoded == Err::<(V, nat), WireError>(e) && after == before,
    }
}

/// A cursor over received bytes.  Its view is what has not been read yet.
#[derive(Debug)]
pub struct ByteReader {
    data: Vec<u8>,
    pos: usize,
}

impl View for ByteReader {
    type V = Seq<u8>;

    closed spec fn view(&self) -> Seq<u8> {
        if self.pos <= self.data@.len() {
            self.data@.skip(self.pos as int)
        } else {
            Seq::empty()
        }
    }
}

impl ByteReader {
    /// All the bytes handed to the reader so far, read or not.
    pub closed spec fn all(&self) -> Seq<u8> {
        self.data@
    }

    /// A reader at the start of `data`.
    pub fn new(data: Vec<u8>) -> (r: ByteReader)
        ensures
            r@ == data@,
    {
        let r = ByteReader { data, pos: 0 };
        assert(r@ =~= data@);
        r
    }

    /// How many bytes are left.
    pub fn remaining(&self) -> (n: usize)
        ensures
            n == self@.len(),
    {
        if self.pos <= self.data.len() {
            self.data.len() - self.pos
        } else {
            0
        }
    }

    /// The position of the cursor, to return to with `seek`.
    pub fn position(&self) -> (p: usize)
        ensures
            self.at(p as nat) == self@,
    {
        self.pos
    }

    /// What is left to read from position `p` on.
    pub closed spec fn at(&self, p: nat) -> Seq<u8> {
        if p <= self.data@.len() {
            self.data@.skip(p as int)
        } else {
            Seq::empty()
        }
    }

    /// Moves the cursor to position `p`.
    pub fn seek(&mut self, p: usize)
        ensures
            final(self)@ == old(self).at(p as nat),
            forall|q: nat| #[trigger] final(self).at(q) == old(self).at(q),
    {
        self.pos = p;
    }

    /// Adds received bytes behind those already there.
    pub fn extend(&mut self, more: &[u8])
        ensures
            final(self)@ == old(self)@ + more@,
    {
        if self.pos > self.data.len() {
            self.pos = self.data.len();
        }
        let ghost before = self.data@;
        self.data.extend_from_slice(more);
        assert(self.data@ =~= before + more@);
        assert(self@ =~= old(self)@ + more@);
    }

    /// A copy of what is left to read.
    pub fn rest(&self) -> (out: Vec<u8>)
        ensures
            out@ == self@,
    {
        let mut out: Vec<u8> = Vec::new();
        if self.pos <= self.data.len() {
            out.extend_from_slice(self.data.as_slice().split_at(self.pos).1);
        }
        assert(out@ =~= self@);
        out
    }

    /// Reads one byte.
    pub fn take_byte(&mut self) -> (res: Result<u8, WireError>)
        ensures
            read_gives(dec_byte(old(self)@), old(self)@, final(self)@, res),
            forall|q: nat| #[trigger] final(self).at(q) == old(self).at(q),
    {
        if self.pos < self.data.len() {
            let b: u8 = self.data[self.pos];
            self.pos = self.pos + 1;
            assert(self@ =~= old(self)@.skip(1));
            Ok(b)
        } else {
            Err(WireError::UnexpectedEof)
        }
    }

    /// Reads `n` bytes.
    pub fn take_bytes(&mut self, n: usize) -> (res: Result<Vec<u8>, WireError>)
        ensures
            match res {
                Ok(v) => n <= old(self)@.len() && v@ == old(self)@.take(n as int) && final(self)@
                    == old(self)@.skip(n as int),
                Err(e) => e == WireError::UnexpectedEof && old(self)@.len() < n && final(self)@
                    == old(self)@,
            },
            forall|q: nat| #[trigger] final(self).at(q) == old(self).at(q),
    {
        if n > self.remaining() {
            return Err(WireError::UnexpectedEof);
        }
        if n == 0 {
            assert(self@.take(0) =~= Seq::<u8>::empty());
            return Ok(Vec::new());
        }
        let mut out: Vec<u8> = Vec::new();
        let mut i: usize = 0;
        while i < n
            invariant
                i <= n <= self@.len(),
                self.pos + n <= self.data.len(),
                out@ == self@.take(i as int),
                self@ == old(self)@,
                forall|q: nat| #[trigger] self.at(q) == old(self).at(q),
            decreases n - i,
        {
            out.push(self.data[self.pos + i]);
            i = i + 1;
            assert(out@ =~= self@.take(i as int));
        }
        self.pos = self.pos + n;
        assert(self@ =~= old(self)@.skip(n as int));
        Ok(out)
    }
}

/// One byte at the front of `buf`.
pub open spec fn dec_byte(buf: Seq<u8>) -> Result<(u8, nat), WireError> {
    if buf.len() >= 1 {
        Ok((buf[0], 1))
    } else {
        Err(WireError::UnexpectedEof)
    }
}

/// Appends bytes to an output buffer.
pub fn put_bytes(w: &mut Vec<u8>, bytes: &[u8])
    ensures
        final(w)@ == old(w)@ + bytes@,
{
    w.extend_from_slice(bytes);
    assert(w@ =~= old(w)@ + bytes@);
}

/// The `n` low bytes of `v`, lowest first.
pub fn le_bytes_of(v: u64, n: usize) -> (out: Vec<u8>)
    ensures
        out@ == le_bytes(v as nat, n as nat),
        out@.len() == n,
{
    let mut out: Vec<u8> = Vec::new();
    let mut rest: u64 = v;
    let mut i: usize = 0;
    proof {
        lemma_le_bytes_len(v as nat, n as nat);
        assert(out@ + le_bytes(rest as nat, (n - i) as nat) =~= le_bytes(v as nat, n as nat));
    }
    while i < n
        invariant
            i <= n,
            out@.len() == i,
            out@ + le_bytes(rest as nat, (n - i) as nat) == le_bytes(v as nat, n as nat),
        decreases n - i,
    {
        let ghost before = out@;
        let ghost tail = le_bytes((rest / 256) as nat, (n - i - 1) as nat);
        out.push((rest % 256) as u8);
        rest = rest / 256;
        i = i + 1;
        assert(out@ + tail =~= before + (seq![out@[i - 1]] + tail));
    }
    assert(out@ =~= out@ + le_bytes(rest as nat, 0));
    out
}

/// The number that at most eight little-endian bytes stand for.
pub fn le_value_of(s: &[u8]) -> (v: u64)
    requires
        s@.len() <= 8,
    ensures
        v == le_value(s@),
{
    let mut v: u64 = 0;
    let mut scale: u64 = 1;
    let mut i: usize = 0;
    assert(s@.take(0) =~= Seq::<u8>::empty());
    proof {
        reveal_with_fuel(pow256, 9);
    }
    while i < s.len()
        invariant
            i <= s@.len() <= 8,
            v == le_value(s@.take(i as int)),
            i < 8 ==> scale == pow256(i as nat),
        decreases s@.len() - i,
    {
        let b: u8 = s[i];
        proof {
            lemma_le_value_push(s@.take(i as int), b);
            lemma_le_value_bound(s@.take(i as int));
            assert(s@.take(i + 1) =~= s@.take(i as int).push(b));
            lemma_le_value_bound(s@.take(i + 1));
            lemma_scale(i as nat, b);
        }
        v = v + (b as u64) * scale;
        if i < 7 {
            scale = scale * 256;
        }
        i = i + 1;
    }
    assert(s@.take(i as int) =~= s@);
    v
}

proof fn lemma_scale(i: nat, b: u8)
    requires
        i < 8,
    ensures
        pow256(i + 1) == 256 * pow256(i),
        pow256(i + 1) <= 0x1_0000_0000_0000_0000,
        i < 7 ==> pow256(i + 1) <= 0x100_0000_0000_0000,
        b * pow256(i) <= 255 * pow256(i),
{
    reveal_with_fuel(pow256, 9);
    assert(i == 0 || i == 1 || i == 2 || i == 3 || i == 4 || i == 5 || i == 6 || i == 7);
    let k = pow256(i);
    assert(b * k <= 255 * k) by (nonlinear_arith)
        requires
            b <= 255,
    ;
}

} // verus!
