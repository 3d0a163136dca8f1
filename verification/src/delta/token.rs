//! The token stream of a file, uncompressed.
//!
//! A positive number is followed by that many literal bytes; a negative one
//! refers to a block of the older version; zero ends the file.

use vstd::prelude::*;

use crate::io::bytes::{put_bytes, ByteReader, WireError};
use crate::io::parse::{lemma_parse_bytes, lemma_parse_int, parse_bytes, parse_int, Parsed};
use crate::io::varint::{enc_int, read_int, write_int};
use crate::protocol::constants::CHUNK_SIZE;

verus! {

/// One step of rebuilding a file.
#[derive(Debug)]
pub enum Token {
    /// Bytes to be written as they are.
    Literal(Vec<u8>),
    /// A block of the older version, by its index from zero.
    BlockMatch(i32),
}

/// The model of a token.
#[verifier::ext_equal]
pub enum TokenModel {
    Literal(Seq<u8>),
    BlockMatch(i32),
}

impl View for Token {
    type V = TokenModel;

    open spec fn view(&self) -> TokenModel {
        match self {
            Token::Literal(b) => TokenModel::Literal(b@),
            Token::BlockMatch(i) => TokenModel::BlockMatch(*i),
        }
    }
}

/// The models of some tokens.
pub open spec fn token_models(ts: Seq<Token>) -> Seq<TokenModel> {
    Seq::new(ts.len(), |i: int| ts[i]@)
}

/// A token on the wire.
pub open spec fn enc_token(t: TokenModel) -> Seq<u8> {
    match t {
        TokenModel::Literal(b) => enc_int(b.len() as i32) + b,
        TokenModel::BlockMatch(i) => enc_int((-(i + 1)) as i32),
    }
}

/// Tokens on the wire, one behind the other.
pub open spec fn enc_tokens(ts: Seq<TokenModel>) -> Seq<u8>
    decreases ts.len(),
{
    if ts.len() == 0 {
        Seq::empty()
    } else {
        enc_tokens(ts.drop_last()) + enc_token(ts.last())
    }
}

/// Whether a token has a form on the wire.
pub open spec fn sendable_token(t: TokenModel) -> bool {
    match t {
        TokenModel::Literal(b) => 0 < b.len() <= i32::MAX,
        TokenModel::BlockMatch(i) => 0 <= i < i32::MAX,
    }
}

/// The token at the front of `buf`; none at the end of the file.
pub open spec fn parse_token(buf: Seq<u8>) -> Parsed<Option<TokenModel>> {
    match parse_int(buf) {
        Err(e) => Err(e),
        Ok((n, r1)) => if n == 0 {
            Ok((None, r1))
        } else if n > 0 {
            match parse_bytes(r1, n as int) {
                Err(e) => Err(e),
                Ok((b, r2)) => Ok((Some(TokenModel::Literal(b)), r2)),
            }
        } else {
            Ok((Some(TokenModel::BlockMatch((-(n + 1)) as i32)), r1))
        },
    }
}

/// The tokens of a whole file, behind those read so far.
pub open spec fn parse_tokens(buf: Seq<u8>, so_far: Seq<TokenModel>) -> Parsed<Seq<TokenModel>>
    decreases buf.len(),
{
    match parse_token(buf) {
        Err(e) => Err(e),
        Ok((None, rest)) => Ok((so_far, rest)),
        Ok((Some(t), rest)) => if rest.len() < buf.len() {
            parse_tokens(rest, so_far.push(t))
        } else {
            Err(WireError::UnexpectedEof)
        },
    }
}

/// The literal tokens for the full chunks at the front of `s`.
pub open spec fn chunk_tokens(s: Seq<u8>) -> Seq<TokenModel>
    decreases s.len(),
{
    if s.len() >= CHUNK_SIZE {
        seq![TokenModel::Literal(s.take(CHUNK_SIZE as int))] + chunk_tokens(
            s.skip(CHUNK_SIZE as int),
        )
    } else {
        Seq::empty()
    }
}

/// What is left of `s` behind its full chunks.
pub open spec fn chunk_rest(s: Seq<u8>) -> Seq<u8>
    decreases s.len(),
{
    if s.len() >= CHUNK_SIZE {
        chunk_rest(s.skip(CHUNK_SIZE as int))
    } else {
        s
    }
}

/// The literal token for `s`; none where there is nothing to send.
pub open spec fn literal_token(s: Seq<u8>) -> Seq<TokenModel> {
    if s.len() == 0 {
        Seq::empty()
    } else {
        seq![TokenModel::Literal(s)]
    }
}

pub proof fn lemma_enc_tokens_concat(a: Seq<TokenModel>, b: Seq<TokenModel>)
    ensures
        enc_tokens(a + b) == enc_tokens(a) + enc_tokens(b),
    decreases b.len(),
{
    if b.len() == 0 {
        assert(a + b =~= a);
        assert(enc_tokens(a) + enc_tokens(b) =~= enc_tokens(a));
    } else {
        lemma_enc_tokens_concat(a, b.drop_last());
        assert((a + b).drop_last() =~= a + b.drop_last());
        assert((a + b).last() == b.last());
        assert(enc_tokens(a + b) =~= enc_tokens(a) + enc_tokens(b));
    }
}

pub proof fn lemma_enc_one(t: TokenModel)
    ensures
        enc_tokens(seq![t]) == enc_token(t),
{
    assert(seq![t].drop_last() =~= Seq::<TokenModel>::empty());
    assert(enc_tokens(seq![t].drop_last()) =~= Seq::<u8>::empty());
    assert(enc_tokens(seq![t]) =~= enc_token(t));
}

// ---------------------------------------------------------------------------
// Writing
// ---------------------------------------------------------------------------

/// A token stream being written.  Literal bytes are gathered into chunks.
#[derive(Debug)]
pub struct TokenWriter {
    inner: Vec<u8>,
    literal_buf: Vec<u8>,
}

impl TokenWriter {
    /// The bytes written so far.
    pub closed spec fn output(&self) -> Seq<u8> {
        self.inner@
    }

    /// The literal bytes gathered but not written yet.
    pub closed spec fn gathered(&self) -> Seq<u8> {
        self.literal_buf@
    }

    /// A stream behind the bytes `inner`.
    pub fn new(inner: Vec<u8>) -> (w: TokenWriter)
        ensures
            w.output() == inner@,
            w.gathered() == Seq::<u8>::empty(),
    {
        TokenWriter { inner, literal_buf: Vec::new() }
    }

    /// Gathers literal bytes and writes out the full chunks.
    pub fn send_literal(&mut self, data: &[u8])
        ensures
            final(self).output() == old(self).output() + enc_tokens(
                chunk_tokens(old(self).gathered() + data@),
            ),
            final(self).gathered() == chunk_rest(old(self).gathered() + data@),
            final(self).gathered().len() < CHUNK_SIZE,
    {
        put_bytes(&mut self.literal_buf, data);
        let ghost all = self.literal_buf@;
        let ghost start = self.inner@;
        proof {
            assert(self.inner@ + enc_tokens(chunk_tokens(all)) =~= start + enc_tokens(
                chunk_tokens(all),
            ));
        }
        while self.literal_buf.len() >= CHUNK_SIZE
            invariant
                self.inner@ + enc_tokens(chunk_tokens(self.literal_buf@)) == start + enc_tokens(
                    chunk_tokens(all),
                ),
                chunk_rest(self.literal_buf@) == chunk_rest(all),
            decreases self.literal_buf@.len(),
        {
            let ghost before = self.inner@;
            let ghost buf = self.literal_buf@;
            let rest: Vec<u8> = self.literal_buf.split_off(CHUNK_SIZE);
            write_int(&mut self.inner, CHUNK_SIZE as i32);
            put_bytes(&mut self.inner, self.literal_buf.as_slice());
            proof {
                let t = TokenModel::Literal(buf.take(CHUNK_SIZE as int));
                let more = chunk_tokens(buf.skip(CHUNK_SIZE as int));
                lemma_enc_tokens_concat(seq![t], more);
                lemma_enc_one(t);
                assert(rest@ =~= buf.skip(CHUNK_SIZE as int));
                assert(self.literal_buf@ =~= buf.take(CHUNK_SIZE as int));
                assert(self.inner@ =~= before + enc_token(t));
                assert(self.inner@ + enc_tokens(more) =~= before + (enc_token(t) + enc_tokens(
                    more,
                )));
            }
            self.literal_buf = rest;
        }
        assert(self.inner@ =~= self.inner@ + enc_tokens(chunk_tokens(self.literal_buf@)));
    }

    /// Writes out the gathered literal bytes.
    pub fn flush_literals(&mut self)
        requires
            old(self).gathered().len() <= i32::MAX,
        ensures
            final(self).output() == old(self).output() + enc_tokens(
                literal_token(old(self).gathered()),
            ),
            final(self).gathered() == Seq::<u8>::empty(),
    {
        if self.literal_buf.len() > 0 {
            let buf: Vec<u8> = self.literal_buf.split_off(0);
            assert(buf@ =~= old(self).literal_buf@);
            assert(self.literal_buf@ =~= Seq::<u8>::empty());
            write_int(&mut self.inner, buf.len() as i32);
            put_bytes(&mut self.inner, buf.as_slice());
            proof {
                lemma_enc_one(TokenModel::Literal(buf@));
            }
            assert(self.inner@ =~= old(self).inner@ + enc_tokens(literal_token(buf@)));
        } else {
            assert(self.literal_buf@ =~= Seq::<u8>::empty());
            assert(self.inner@ =~= old(self).inner@ + enc_tokens(
                literal_token(old(self).literal_buf@),
            ));
        }
    }

    /// Refers to a block of the older version.
    pub fn send_block_match(&mut self, block_idx: i32)
        requires
            block_idx < i32::MAX,
            old(self).gathered().len() <= i32::MAX,
        ensures
            final(self).output() == old(self).output() + enc_tokens(
                literal_token(old(self).gathered()) + seq![TokenModel::BlockMatch(block_idx)],
            ),
            final(self).gathered() == Seq::<u8>::empty(),
    {
        self.flush_literals();
        write_int(&mut self.inner, -(block_idx + 1));
        proof {
            let t = TokenModel::BlockMatch(block_idx);
            lemma_enc_tokens_concat(literal_token(old(self).gathered()), seq![t]);
            lemma_enc_one(t);
            assert(self.inner@ =~= old(self).inner@ + enc_tokens(
                literal_token(old(self).gathered()) + seq![t],
            ));
        }
    }

    /// Writes the end mark.
    pub fn send_eof(&mut self)
        ensures
            final(self).output() == old(self).output() + enc_int(0),
            final(self).gathered() == old(self).gathered(),
    {
        write_int(&mut self.inner, 0);
    }

    /// Writes out the gathered bytes and the end mark and hands out the stream.
    pub fn finish(self) -> (out: Vec<u8>)
        requires
            self.gathered().len() <= i32::MAX,
        ensures
            out@ == self.output() + enc_tokens(literal_token(self.gathered())) + enc_int(0),
    {
        let mut w: TokenWriter = self;
        w.flush_literals();
        w.send_eof();
        w.inner
    }
}

// ---------------------------------------------------------------------------
// Reading
// ---------------------------------------------------------------------------

/// A token stream being read.
#[derive(Debug)]
pub struct TokenReader {
    inner: ByteReader,
}

impl TokenReader {
    /// The bytes that have not been read yet.
    pub closed spec fn input(&self) -> Seq<u8> {
        self.inner@
    }

    /// A stream over the bytes `inner`.
    pub fn new(inner: ByteReader) -> (r: TokenReader)
        ensures
            r.input() == inner@,
    {
        TokenReader { inner }
    }

    /// Reads the next token; none at the end mark.
    pub fn read_token(&mut self) -> (res: Result<Option<Token>, WireError>)
        ensures
            token_read(old(self).input(), final(self).input(), res),
    {
        read_token_from(&mut self.inner)
    }

    /// Hands back the bytes that have not been read yet.
    pub fn into_inner(self) -> (r: ByteReader)
        ensures
            r@ == self.input(),
    {
        self.inner
    }
}

/// What a reader of one token owes.
pub open spec fn token_read(
    before: Seq<u8>,
    after: Seq<u8>,
    res: Result<Option<Token>, WireError>,
) -> bool {
    match res {
        Ok(None) => parse_token(before) == Ok::<(Option<TokenModel>, Seq<u8>), WireError>(
            (None, after),
        ),
        Ok(Some(t)) => parse_token(before) == Ok::<(Option<TokenModel>, Seq<u8>), WireError>(
            (Some(t@), after),
        ) && after.len() < before.len(),
        Err(e) => parse_token(before) == Err::<(Option<TokenModel>, Seq<u8>), WireError>(e)
            && after == before,
    }
}

/// Reads the next token; none at the end mark.
pub(crate) fn read_token_from(r: &mut ByteReader) -> (res: Result<Option<Token>, WireError>)
    ensures
        token_read(old(r)@, final(r)@, res),
        forall|q: nat| #[trigger] final(r).at(q) == old(r).at(q),
{
    proof {
        reveal(parse_int);
        reveal(parse_bytes);
    }
    let start: usize = r.position();
    let n: i32 = match read_int(r) {
        Err(e) => return Err(e),
        Ok(v) => v,
    };
    if n == 0 {
        Ok(None)
    } else if n > 0 {
        match r.take_bytes(n as usize) {
            Err(e) => {
                r.seek(start);
                Err(e)
            },
            Ok(b) => Ok(Some(Token::Literal(b))),
        }
    } else {
        Ok(Some(Token::BlockMatch(-(n + 1))))
    }
}

/// Reads the tokens of a whole file.
pub fn read_tokens(r: &mut ByteReader) -> (res: Result<Vec<Token>, WireError>)
    ensures
        match res {
            Ok(ts) => parse_tokens(old(r)@, Seq::empty()) == Ok::<
                (Seq<TokenModel>, Seq<u8>),
                WireError,
            >((token_models(ts@), final(r)@)),
            Err(e) => parse_tokens(old(r)@, Seq::empty()) == Err::<
                (Seq<TokenModel>, Seq<u8>),
                WireError,
            >(e) && final(r)@ == old(r)@,
        },
        forall|q: nat| #[trigger] final(r).at(q) == old(r).at(q),
{
    let start: usize = r.position();
    let mut ts: Vec<Token> = Vec::new();
    assert(token_models(ts@) =~= Seq::<TokenModel>::empty());
    loop
        invariant
            old(r).at(start as nat) == old(r)@,
            parse_tokens(r@, token_models(ts@)) == parse_tokens(old(r)@, Seq::empty()),
            forall|q: nat| #[trigger] r.at(q) == old(r).at(q),
        decreases r@.len(),
    {
        match read_token_from(r) {
            Err(e) => {
                r.seek(start);
                return Err(e);
            },
            Ok(None) => return Ok(ts),
            Ok(Some(t)) => {
                let ghost before = token_models(ts@);
                let ghost m = t@;
                ts.push(t);
                assert(token_models(ts@) =~= before.push(m));
            },
        }
    }
}

// ---------------------------------------------------------------------------
// Laws
// ---------------------------------------------------------------------------

/// A token that was written is read back.
pub proof fn token_round_trip(t: TokenModel, rest: Seq<u8>)
    requires
        sendable_token(t),
    ensures
        parse_token(enc_token(t) + rest) == Ok::<(Option<TokenModel>, Seq<u8>), WireError>(
            (Some(t), rest),
        ),
        enc_token(t).len() > 0,
{
    match t {
        TokenModel::Literal(b) => {
            assert(enc_token(t) + rest =~= enc_int(b.len() as i32) + (b + rest));
            lemma_parse_int(b.len() as i32, b + rest);
            lemma_parse_bytes(b, rest);
        },
        TokenModel::BlockMatch(i) => {
            lemma_parse_int((-(i + 1)) as i32, rest);
            crate::io::varint::int_round_trip((-(i + 1)) as i32, rest);
        },
    }
}

/// A token stream that was written is read back, up to its end mark.
pub proof fn token_stream_round_trip(ts: Seq<TokenModel>, so_far: Seq<TokenModel>, rest: Seq<u8>)
    requires
        forall|i: int| 0 <= i < ts.len() ==> sendable_token(#[trigger] ts[i]),
    ensures
        parse_tokens(enc_tokens(ts) + enc_int(0) + rest, so_far) == Ok::<
            (Seq<TokenModel>, Seq<u8>),
            WireError,
        >((so_far + ts, rest)),
    decreases ts.len(),
{
    let buf = enc_tokens(ts) + enc_int(0) + rest;
    if ts.len() == 0 {
        assert(buf =~= enc_int(0) + rest);
        lemma_parse_int(0, rest);
        assert(so_far + ts =~= so_far);
    } else {
        let t = ts[0];
        let more = ts.skip(1);
        let tail = enc_tokens(more) + enc_int(0) + rest;
        assert(ts =~= seq![t] + more);
        lemma_enc_tokens_concat(seq![t], more);
        lemma_enc_one(t);
        assert(buf =~= enc_token(t) + tail);
        token_round_trip(t, tail);
        token_stream_round_trip(more, so_far.push(t), rest);
        assert(so_far.push(t) + more =~= so_far + ts);
    }
}

/// The bytes of the literal tokens among `ts`, in order.
pub open spec fn literal_bytes(ts: Seq<TokenModel>) -> Seq<u8>
    decreases ts.len(),
{
    if ts.len() == 0 {
        Seq::empty()
    } else {
        literal_bytes(ts.drop_last()) + match ts.last() {
            TokenModel::Literal(b) => b,
            TokenModel::BlockMatch(_) => Seq::empty(),
        }
    }
}

pub proof fn lemma_literal_concat(a: Seq<TokenModel>, b: Seq<TokenModel>)
    ensures
        literal_bytes(a + b) == literal_bytes(a) + literal_bytes(b),
    decreases b.len(),
{
    if b.len() == 0 {
        assert(a + b =~= a);
        assert(literal_bytes(a) + literal_bytes(b) =~= literal_bytes(a));
    } else {
        lemma_literal_concat(a, b.drop_last());
        assert((a + b).drop_last() =~= a + b.drop_last());
        assert(literal_bytes(a + b) =~= literal_bytes(a) + literal_bytes(b));
    }
}

/// Chunking neither loses nor reorders a byte, and every chunk can be sent.
pub proof fn chunks_keep_bytes(s: Seq<u8>)
    ensures
        literal_bytes(chunk_tokens(s)) + chunk_rest(s) == s,
        chunk_rest(s).len() < CHUNK_SIZE,
        forall|i: int| 0 <= i < chunk_tokens(s).len() ==> sendable_token(#[trigger] chunk_tokens(s)[i])
            && chunk_tokens(s)[i] is Literal,
    decreases s.len(),
{
    if s.len() >= CHUNK_SIZE {
        let head = s.take(CHUNK_SIZE as int);
        let more = s.skip(CHUNK_SIZE as int);
        let t = seq![TokenModel::Literal(head)];
        chunks_keep_bytes(more);
        lemma_literal_concat(t, chunk_tokens(more));
        assert(t.drop_last() =~= Seq::<TokenModel>::empty());
        assert(literal_bytes(t.drop_last()) =~= Seq::<u8>::empty());
        assert(literal_bytes(t) =~= head);
        assert(literal_bytes(chunk_tokens(s)) + chunk_rest(s) =~= head + (literal_bytes(
            chunk_tokens(more),
        ) + chunk_rest(more)));
        assert(head + more =~= s);
    } else {
        assert(literal_bytes(chunk_tokens(s)) + chunk_rest(s) =~= s);
    }
}

} // verus!
