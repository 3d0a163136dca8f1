//! What goes between the two sides about a file besides its data: its index,
//! and flags that say what is to be done with it.

use vstd::prelude::*;
use vstd::utf8::encode_utf8;

use crate::flags::{flag_set, has_bit};
use crate::io::bytes::{ByteReader, WireError};
use crate::io::parse::{
    lemma_parse_byte, lemma_parse_int, lemma_parse_shortint, parse_byte, parse_int, parse_shortint,
    parsed, Parsed,
};
use crate::io::varint::{
    dec_ndx, dec_vstring, enc_int, enc_ndx, enc_shortint, enc_vstring, ndx_after, ndx_round_trip,
    read_byte, read_int, read_ndx, read_shortint, read_vstring, vstring_round_trip, write_byte,
    write_int, write_ndx, write_shortint, write_vstring, NdxPrev, NdxState,
};
use crate::protocol::constants::{
    ITEM_BASIS_TYPE_FOLLOWS, ITEM_TRANSFER, ITEM_XNAME_FOLLOWS, NDX_DONE,
};
use crate::text::text_of;

verus! {

/// An index on the wire: by the difference to the one before from protocol 30
/// on, and as a plain number before.
pub open spec fn index_bytes(protocol: u32, prev: NdxPrev, ndx: i32) -> Seq<u8> {
    if protocol >= 30 {
        enc_ndx(prev, ndx)
    } else {
        enc_int(ndx)
    }
}

/// What is remembered after an index.
pub open spec fn index_after(protocol: u32, prev: NdxPrev, ndx: i32) -> NdxPrev {
    if protocol >= 30 {
        ndx_after(prev, ndx)
    } else {
        prev
    }
}

/// The index at the front of `buf`, and what is remembered after it.
#[verifier::opaque]
pub open spec fn parse_index(protocol: u32, prev: NdxPrev, buf: Seq<u8>) -> Parsed<(i32, NdxPrev)> {
    if protocol >= 30 {
        parsed(dec_ndx(prev, buf), buf)
    } else {
        match parse_int(buf) {
            Ok((ndx, rest)) => Ok(((ndx, prev), rest)),
            Err(e) => Err(e),
        }
    }
}

/// Whether an index can be written.
pub open spec fn can_write_index(protocol: u32, ndx: i32) -> bool {
    protocol >= 30 ==> ndx != i32::MIN
}

/// Writes an index.
pub fn write_index(w: &mut Vec<u8>, state: &mut NdxState, protocol: u32, ndx: i32)
    requires
        can_write_index(protocol, ndx),
    ensures
        final(w)@ == old(w)@ + index_bytes(protocol, old(state).write, ndx),
        *final(state) == (NdxState {
            write: index_after(protocol, old(state).write, ndx),
            ..*old(state)
        }),
{
    if protocol >= 30 {
        write_ndx(w, state, ndx);
    } else {
        write_int(w, ndx);
    }
}

/// Reads an index.
pub fn read_index(r: &mut ByteReader, state: &mut NdxState, protocol: u32) -> (res: Result<
    i32,
    WireError,
>)
    ensures
        match res {
            Ok(ndx) => parse_index(protocol, old(state).read, old(r)@) == Ok::<
                ((i32, NdxPrev), Seq<u8>),
                WireError,
            >(((ndx, final(state).read), final(r)@)) && *final(state) == (NdxState {
                read: final(state).read,
                ..*old(state)
            }) && final(r)@.len() < old(r)@.len(),
            Err(e) => parse_index(protocol, old(state).read, old(r)@) == Err::<
                ((i32, NdxPrev), Seq<u8>),
                WireError,
            >(e) && final(r)@ == old(r)@ && *final(state) == *old(state),
        },
        forall|q: nat| #[trigger] final(r).at(q) == old(r).at(q),
{
    proof {
        reveal(parse_index);
        reveal(parse_int);
    }
    if protocol >= 30 {
        read_ndx(r, state)
    } else {
        read_int(r)
    }
}

/// An index that was written is read back by a reader that remembers the same
/// indices.
pub proof fn index_round_trip(protocol: u32, prev: NdxPrev, ndx: i32, tail: Seq<u8>)
    requires
        can_write_index(protocol, ndx),
    ensures
        parse_index(protocol, prev, index_bytes(protocol, prev, ndx) + tail) == Ok::<
            ((i32, NdxPrev), Seq<u8>),
            WireError,
        >(((ndx, index_after(protocol, prev, ndx)), tail)),
{
    reveal(parse_index);
    if protocol >= 30 {
        ndx_round_trip(prev, ndx, tail);
        let b = enc_ndx(prev, ndx);
        assert((b + tail).skip(b.len() as int) =~= tail);
    } else {
        lemma_parse_int(ndx, tail);
    }
}

/// What is said of a file behind its index.
#[derive(Debug)]
pub struct Item {
    pub iflags: u32,
    /// What the older version is, where the flags say that this follows.
    pub basis_type: u8,
    /// Another name, where the flags say that this follows.
    pub xname: String,
}

/// The model of what is said of a file.
#[verifier::ext_equal]
pub struct ItemModel {
    pub iflags: u32,
    pub basis_type: u8,
    pub xname: Seq<char>,
}

impl View for Item {
    type V = ItemModel;

    open spec fn view(&self) -> ItemModel {
        ItemModel { iflags: self.iflags, basis_type: self.basis_type, xname: self.xname@ }
    }
}

/// The name at the front of `buf`.
#[verifier::opaque]
pub open spec fn parse_xname(buf: Seq<u8>) -> Parsed<Seq<char>> {
    match dec_vstring(buf) {
        Ok((b, n)) => Ok((text_of(b), buf.skip(n as int))),
        Err(e) => Err(e),
    }
}

/// The flags at the front of `buf`; before protocol 29 there are none, and
/// every index asks for a transfer.
pub open spec fn parse_iflags(protocol: u32, buf: Seq<u8>) -> Parsed<u32> {
    if protocol >= 29 {
        match parse_shortint(buf) {
            Ok((f, rest)) => Ok((f as u32, rest)),
            Err(e) => Err(e),
        }
    } else {
        Ok((ITEM_TRANSFER, buf))
    }
}

/// What is said of a file at the front of `buf`.
pub open spec fn parse_item(protocol: u32, buf: Seq<u8>) -> Parsed<ItemModel> {
    match parse_iflags(protocol, buf) {
        Err(e) => Err(e),
        Ok((iflags, r1)) => match if flag_set(iflags, ITEM_BASIS_TYPE_FOLLOWS) {
            parse_byte(r1)
        } else {
            Ok((0u8, r1))
        } {
            Err(e) => Err(e),
            Ok((basis_type, r2)) => match if flag_set(iflags, ITEM_XNAME_FOLLOWS) {
                parse_xname(r2)
            } else {
                Ok((Seq::empty(), r2))
            } {
                Err(e) => Err(e),
                Ok((xname, r3)) => Ok((ItemModel { iflags, basis_type, xname }, r3)),
            },
        },
    }
}

/// The bytes of a request up to a name that is cut off, where one is.
pub open spec fn before_cut_name(protocol: u32, prev: NdxPrev, buf: Seq<u8>) -> Option<Seq<u8>> {
    match parse_index(protocol, prev, buf) {
        Err(_) => None,
        Ok(((ndx, _), r0)) => match parse_iflags(protocol, r0) {
            Err(_) => None,
            Ok((iflags, r1)) => match if flag_set(iflags, ITEM_BASIS_TYPE_FOLLOWS) {
                parse_byte(r1)
            } else {
                Ok((0u8, r1))
            } {
                Err(_) => None,
                Ok((_, r2)) => if ndx != NDX_DONE && flag_set(iflags, ITEM_XNAME_FOLLOWS)
                    && parse_xname(r2) is Err {
                    Some(buf.take(buf.len() - r2.len()))
                } else {
                    None
                },
            },
        },
    }
}

/// Finds out how many bytes of a request come before a name that is cut off.
pub fn find_cut_name(r: &mut ByteReader, state: &NdxState, protocol: u32) -> (res: Option<usize>)
    ensures
        final(r)@ == old(r)@,
        match res {
            Some(n) => n <= old(r)@.len() && before_cut_name(protocol, state.read, old(r)@) == Some(
                old(r)@.take(n as int),
            ),
            None => before_cut_name(protocol, state.read, old(r)@) == None::<Seq<u8>>,
        },
        forall|q: nat| #[trigger] final(r).at(q) == old(r).at(q),
{
    proof {
        reveal(parse_shortint);
        reveal(parse_byte);
        reveal(parse_xname);
    }
    let start: usize = r.position();
    let total: usize = r.remaining();
    let mut heard: NdxState = *state;
    let ndx: i32 = match read_index(r, &mut heard, protocol) {
        Err(_) => return None,
        Ok(x) => x,
    };
    let iflags: u32 = if protocol >= 29 {
        match read_shortint(r) {
            Err(_) => {
                r.seek(start);
                return None;
            },
            Ok(f) => f as u32,
        }
    } else {
        ITEM_TRANSFER
    };
    if has_bit(iflags, ITEM_BASIS_TYPE_FOLLOWS) {
        match read_byte(r) {
            Err(_) => {
                r.seek(start);
                return None;
            },
            Ok(_) => {},
        }
    }
    if ndx == NDX_DONE || !has_bit(iflags, ITEM_XNAME_FOLLOWS) {
        r.seek(start);
        return None;
    }
    let left: usize = r.remaining();
    match read_vstring(r) {
        Err(_) => {
            r.seek(start);
            Some(total - left)
        },
        Ok(_) => {
            r.seek(start);
            None
        },
    }
}

/// What is said of a file, on the wire.
pub open spec fn item_bytes(protocol: u32, item: ItemModel) -> Seq<u8> {
    let a = if protocol >= 29 {
        enc_shortint(item.iflags as u16)
    } else {
        Seq::empty()
    };
    let b = if flag_set(item.iflags, ITEM_BASIS_TYPE_FOLLOWS) {
        seq![item.basis_type]
    } else {
        Seq::empty()
    };
    let c = if flag_set(item.iflags, ITEM_XNAME_FOLLOWS) {
        enc_vstring(encode_utf8(item.xname))
    } else {
        Seq::empty()
    };
    a + b + c
}

/// Whether an item can be written: its name is not too long.
pub open spec fn can_write_item(item: ItemModel) -> bool {
    flag_set(item.iflags, ITEM_XNAME_FOLLOWS) ==> encode_utf8(item.xname).len() <= 0x7fff
}

/// Reads what is said of a file.
pub fn read_item(r: &mut ByteReader, protocol: u32) -> (res: Result<Item, WireError>)
    ensures
        match res {
            Ok(item) => parse_item(protocol, old(r)@) == Ok::<(ItemModel, Seq<u8>), WireError>(
                (item@, final(r)@),
            ) && final(r)@.len() <= old(r)@.len(),
            Err(e) => parse_item(protocol, old(r)@) == Err::<(ItemModel, Seq<u8>), WireError>(e)
                && final(r)@ == old(r)@,
        },
        forall|q: nat| #[trigger] final(r).at(q) == old(r).at(q),
{
    proof {
        reveal(parse_shortint);
        reveal(parse_byte);
        reveal(parse_xname);
    }
    let start: usize = r.position();
    let iflags: u32 = if protocol >= 29 {
        match read_shortint(r) {
            Err(e) => return Err(e),
            Ok(f) => f as u32,
        }
    } else {
        ITEM_TRANSFER
    };
    let mut basis_type: u8 = 0;
    if has_bit(iflags, ITEM_BASIS_TYPE_FOLLOWS) {
        match read_byte(r) {
            Err(e) => {
                r.seek(start);
                return Err(e);
            },
            Ok(b) => {
                basis_type = b;
            },
        }
    }
    let mut xname: String = String::new();
    if has_bit(iflags, ITEM_XNAME_FOLLOWS) {
        match read_vstring(r) {
            Err(e) => {
                r.seek(start);
                return Err(e);
            },
            Ok(s) => {
                xname = s;
            },
        }
    }
    let item: Item = Item { iflags, basis_type, xname };
    Ok(item)
}

/// Writes what is said of a file.
pub fn write_item(w: &mut Vec<u8>, protocol: u32, item: &Item) -> (res: Result<(), WireError>)
    ensures
        match res {
            Ok(_) => can_write_item(item@) && final(w)@ == old(w)@ + item_bytes(protocol, item@),
            Err(e) => e == WireError::StringTooLong && !can_write_item(item@),
        },
{
    let ghost start = w@;
    if protocol >= 29 {
        write_shortint(w, item.iflags as u16);
    }
    if has_bit(item.iflags, ITEM_BASIS_TYPE_FOLLOWS) {
        write_byte(w, item.basis_type);
    }
    if has_bit(item.iflags, ITEM_XNAME_FOLLOWS) {
        match write_vstring(w, item.xname.as_str()) {
            Err(e) => return Err(e),
            Ok(_) => {},
        }
    }
    assert(w@ =~= start + item_bytes(protocol, item@));
    Ok(())
}

/// What was said of a file is read back as it was said, with the parts that
/// the flags leave out empty.
pub proof fn item_round_trip(protocol: u32, item: ItemModel, tail: Seq<u8>)
    requires
        item.iflags <= 0xffff,
        protocol < 29 ==> item.iflags == ITEM_TRANSFER,
        can_write_item(item),
    ensures
        parse_item(protocol, item_bytes(protocol, item) + tail) == Ok::<
            (ItemModel, Seq<u8>),
            WireError,
        >(
            (
                ItemModel {
                    iflags: item.iflags,
                    basis_type: if flag_set(item.iflags, ITEM_BASIS_TYPE_FOLLOWS) {
                        item.basis_type
                    } else {
                        0
                    },
                    xname: if flag_set(item.iflags, ITEM_XNAME_FOLLOWS) {
                        item.xname
                    } else {
                        Seq::empty()
                    },
                },
                tail,
            ),
        ),
{
    let a = if protocol >= 29 {
        enc_shortint(item.iflags as u16)
    } else {
        Seq::empty()
    };
    let b = if flag_set(item.iflags, ITEM_BASIS_TYPE_FOLLOWS) {
        seq![item.basis_type]
    } else {
        Seq::empty()
    };
    let c = if flag_set(item.iflags, ITEM_XNAME_FOLLOWS) {
        enc_vstring(encode_utf8(item.xname))
    } else {
        Seq::empty()
    };
    let t2 = c + tail;
    let t1 = b + t2;
    assert(item_bytes(protocol, item) + tail =~= a + t1);
    if protocol >= 29 {
        lemma_parse_shortint(item.iflags as u16, t1);
    } else {
        assert(a + t1 =~= t1);
    }
    if flag_set(item.iflags, ITEM_BASIS_TYPE_FOLLOWS) {
        lemma_parse_byte(item.basis_type, t2);
    } else {
        assert(t1 =~= t2);
    }
    reveal(parse_xname);
    if flag_set(item.iflags, ITEM_XNAME_FOLLOWS) {
        vstring_round_trip(item.xname, tail);
        assert(t2.skip(c.len() as int) =~= tail);
    } else {
        assert(t2 =~= tail);
    }
}

} // verus!
