//! What is refused: input that is cut off, numbers that do not fit, and things
//! that are not what they should be.

use vstd::prelude::*;

use crate::batch::{parse_header, parse_record, BatchError};
use crate::delta::match_blocks::{parse_sum_bufs, parse_sum_head};
use crate::delta::token::{parse_token, TokenModel};
use crate::io::bytes::{dec_byte, WireError};
use crate::io::parse::{lemma_parse_int, parse_bytes, parse_int, parse_varint};
use crate::io::varint::{
    dec_int, dec_longint, dec_ndx, dec_shortint, dec_varint, dec_varlong, dec_vstring, enc_int,
    extra_bytes, NdxPrev,
};
use crate::filter::Rule;
use crate::protocol::types::{BlockSum, SumHead};
use crate::session::{parse_rules, parse_version, HandshakeError};
use crate::uidlist::list_read;

verus! {

// ---------------------------------------------------------------------------
// Numbers
// ---------------------------------------------------------------------------

/// A number of a fixed length that is cut off is no number.
pub proof fn numbers_need_all_their_bytes(buf: Seq<u8>)
    ensures
        (dec_byte(buf) is Ok) == (buf.len() >= 1),
        (dec_shortint(buf) is Ok) == (buf.len() >= 2),
        (dec_int(buf) is Ok) == (buf.len() >= 4),
        buf.len() < 4 ==> dec_int(buf) == Err::<(i32, nat), WireError>(WireError::UnexpectedEof),
        buf.len() < 4 ==> dec_longint(buf) == Err::<(i64, nat), WireError>(WireError::UnexpectedEof),
        4 <= buf.len() < 12 && buf[0] == 0xff && buf[1] == 0xff && buf[2] == 0xff && buf[3] == 0xff
            ==> dec_longint(buf) == Err::<(i64, nat), WireError>(WireError::UnexpectedEof),
{
    if 4 <= buf.len() < 12 && buf[0] == 0xff && buf[1] == 0xff && buf[2] == 0xff && buf[3] == 0xff {
        crate::laws::wire::integers_go_lowest_byte_first((-1) as i32);
        let tail = buf.skip(4);
        let e = enc_int((-1) as i32);
        assert(e[0] + 0x100 * e[1] + 0x1_0000 * e[2] + 0x100_0000 * e[3] == 0xffff_ffff);
        assert(buf =~= e + tail);
        crate::io::varint::int_round_trip((-1) as i32, tail);
    }
}

/// A number of variable length needs the bytes that its first byte announces,
/// and one that announces more than a number holds is refused.
pub proof fn variable_numbers_need_what_they_announce(buf: Seq<u8>)
    ensures
        buf.len() == 0 ==> dec_varint(buf) == Err::<(i32, nat), WireError>(WireError::UnexpectedEof),
        buf.len() > 0 && buf[0] >= 0xf8 ==> dec_varint(buf) == Err::<(i32, nat), WireError>(
            WireError::IntegerOverflow,
        ),
        buf.len() == 1 && 0x80 <= buf[0] < 0xf8 ==> dec_varint(buf) == Err::<(i32, nat), WireError>(
            WireError::UnexpectedEof,
        ),
        buf.len() == 2 && 0xc0 <= buf[0] < 0xf8 ==> dec_varint(buf) == Err::<(i32, nat), WireError>(
            WireError::UnexpectedEof,
        ),
        buf.len() > 0 && buf[0] < 0x80 ==> dec_varint(buf) is Ok,
        buf.len() < 3 ==> dec_varlong(buf, 3) == Err::<(i64, nat), WireError>(
            WireError::UnexpectedEof,
        ),
        buf.len() == 3 && buf[0] >= 0x80 ==> dec_varlong(buf, 3) is Err,
        buf.len() >= 3 && buf[0] < 0x80 ==> dec_varlong(buf, 3) is Ok,
{
    if buf.len() > 0 {
        assert(extra_bytes(buf[0]) <= 6);
    }
}

/// A text needs as many bytes as its length says.
pub proof fn texts_need_all_their_bytes(buf: Seq<u8>)
    ensures
        buf.len() == 0 ==> dec_vstring(buf) == Err::<(Seq<u8>, nat), WireError>(
            WireError::UnexpectedEof,
        ),
        0 < buf.len() && buf[0] < 0x80 ==> (dec_vstring(buf) is Ok) == (buf.len() > buf[0]),
        buf.len() == 1 && buf[0] >= 0x80 ==> dec_vstring(buf) is Err,
{
}

/// An index needs its first byte, and more of them where that says so.
pub proof fn indices_need_all_their_bytes(prev: NdxPrev, buf: Seq<u8>)
    ensures
        buf.len() == 0 ==> dec_ndx(prev, buf) is Err,
        0 < buf.len() < 3 && buf[0] == 0xfe ==> dec_ndx(prev, buf) is Err,
        buf.len() == 1 && buf[0] == 0xff ==> dec_ndx(prev, buf) is Err,
        buf.len() > 0 && buf[0] == 0 ==> dec_ndx(prev, buf) is Ok,
{
}

// ---------------------------------------------------------------------------
// Messages of the protocol
// ---------------------------------------------------------------------------

/// Literal bytes that are cut off are refused, and so is a token whose number
/// is.
pub proof fn tokens_need_all_their_bytes(n: i32, buf: Seq<u8>)
    requires
        0 < n,
        buf.len() < n,
    ensures
        parse_token(enc_int(n) + buf) == Err::<(Option<TokenModel>, Seq<u8>), WireError>(
            WireError::UnexpectedEof,
        ),
        buf.len() < 4 ==> parse_token(buf) == Err::<(Option<TokenModel>, Seq<u8>), WireError>(
            WireError::UnexpectedEof,
        ),
{
    lemma_parse_int(n, buf);
    reveal(parse_bytes);
    reveal(parse_int);
}

/// A layout with a negative number of blocks is refused, and so is one with
/// blocks whose checksums have a negative length.
pub proof fn negative_layouts_are_refused(buf: Seq<u8>, h: SumHead)
    ensures
        h.count < 0 ==> parse_sum_bufs(buf, h) == Err::<(Seq<BlockSum>, Seq<u8>), WireError>(
            WireError::NegativeLength,
        ),
        h.count > 0 && h.s2length < 0 ==> parse_sum_bufs(buf, h) == Err::<
            (Seq<BlockSum>, Seq<u8>),
            WireError,
        >(WireError::NegativeLength),
        h.count == 0 ==> parse_sum_bufs(buf, h) == Ok::<(Seq<BlockSum>, Seq<u8>), WireError>(
            (Seq::empty(), buf),
        ),
        buf.len() < 4 ==> parse_sum_head(buf) is Err,
{
    reveal(parse_int);
}

/// A rule of negative length is refused, and so is a list of rules that does
/// not end.
pub proof fn rules_need_an_end(n: i32, buf: Seq<u8>)
    requires
        n < 0,
    ensures
        parse_rules(enc_int(n) + buf, Seq::empty()) == Err::<(Seq<Rule>, Seq<u8>), WireError>(
            WireError::NegativeLength,
        ),
        buf.len() < 4 ==> parse_rules(buf, Seq::empty()) is Err,
{
    lemma_parse_int(n, buf);
    reveal(parse_int);
}

/// A version that is cut off is waited for, and one that is too old or too new
/// is refused.
pub proof fn strange_versions_are_refused(v: i32, buf: Seq<u8>)
    ensures
        buf.len() < 4 ==> parse_version(buf) == Err::<(u32, Seq<u8>), HandshakeError>(
            HandshakeError::Wire(WireError::UnexpectedEof),
        ),
        0 <= v < 20 ==> parse_version(enc_int(v) + buf) == Err::<(u32, Seq<u8>), HandshakeError>(
            HandshakeError::TooOld(v as u32),
        ),
        v > 40 ==> parse_version(enc_int(v) + buf) == Err::<(u32, Seq<u8>), HandshakeError>(
            HandshakeError::TooNew(v as u32),
        ),
        v < 0 ==> parse_version(enc_int(v) + buf) is Err,
{
    lemma_parse_int(v, buf);
    reveal(parse_int);
}

// ---------------------------------------------------------------------------
// Batch files
// ---------------------------------------------------------------------------

/// What does not start with the word of a batch file is none.
pub proof fn other_files_are_no_batches(buf: Seq<u8>, k: int)
    requires
        0 <= k < 8 <= buf.len(),
        buf[k] != seq![
            'R' as u8,
            'S' as u8,
            'Y' as u8,
            'N' as u8,
            'B' as u8,
            'A' as u8,
            'T' as u8,
            '1' as u8,
        ][k],
    ensures
        parse_header(buf) == Err::<(u32, i32, u32, Seq<u8>), BatchError>(BatchError::NotABatch),
{
    reveal(parse_bytes);
    assert(buf.take(8)[k] == buf[k]);
}

/// A record starts with one of two bytes; any other is refused, by the byte.
pub proof fn other_records_are_refused(tag: u8, buf: Seq<u8>)
    ensures
        tag != 1 && tag != 0xff ==> parse_record(seq![tag] + buf) == Err::<
            (Option<(i32, Seq<u8>)>, Seq<u8>),
            BatchError,
        >(BatchError::UnknownTag(tag)),
        tag == 0xff ==> parse_record(seq![tag] + buf) == Ok::<
            (Option<(i32, Seq<u8>)>, Seq<u8>),
            BatchError,
        >((None, buf)),
{
    crate::io::parse::lemma_parse_byte(tag, buf);
}

/// A table of names that is cut off is refused, and what was read of it stays.
pub proof fn tables_need_an_end(m: Map<u32, Seq<char>>)
    ensures
        list_read(Seq::empty(), m) == (
            Err::<Seq<u8>, WireError>(WireError::UnexpectedEof),
            m,
        ),
{
    reveal(parse_varint);
}

} // verus!
