//! How a session starts and ends: the version of the protocol, what both
//! sides support, the filter rules, and the counters at the end.

use vstd::prelude::*;
use vstd::utf8::{
    decode_utf8, encode_utf8, encode_utf8_decode_utf8, encode_utf8_valid_utf8, valid_utf8,
};

use crate::checksum::strong::ChecksumType;
use crate::filter::{
    fits_line, is_made, parsed_rule, rule_line, rule_line_is_read_back, FilterList, FilterRule,
    Rule,
};
use crate::flags::{flag_set, has_bit};
use crate::io::bytes::{bits32, put_bytes, ByteReader, WireError};
use crate::io::parse::{
    lemma_parse_bytes, lemma_parse_int, lemma_parse_varint, lemma_parse_varlong, parse_bytes,
    parse_int, parse_varint, parse_varlong, Parsed,
};
use crate::io::varint::{
    bits32_of, enc_int, enc_varint, enc_varlong, enc_vstring, read_int, read_varint, read_varlong,
    read_vstring, vstring_round_trip, write_int, write_varint, write_varlong, write_vstring,
};
use crate::pipeline::items::parse_xname;
use crate::protocol::constants::{
    CsumType, CF_SAFE_FLIST, CF_VARINT_FLIST_FLAGS, MAX_PROTOCOL_VERSION,
    MIN_PROTOCOL_VERSION, NDX_DONE, PROTOCOL_VERSION,
};
use crate::protocol::types::Stats;
use crate::text::{lemma_encode_len, same_text, split_words, texts, utf8_text, words};

verus! {

// ---------------------------------------------------------------------------
// The version of the protocol
// ---------------------------------------------------------------------------

/// Why two sides cannot talk to each other.
#[derive(Clone, Copy, Debug, PartialEq, Eq, Structural)]
pub enum HandshakeError {
    /// The other side's version did not come.
    Wire(WireError),
    /// The other side's version is too old.
    TooOld(u32),
    /// The other side's version is too new.
    TooNew(u32),
}

/// The version that is spoken with a side of version `remote`: the older of
/// the two.
pub open spec fn common_version(remote: u32) -> Result<u32, HandshakeError> {
    if remote < MIN_PROTOCOL_VERSION {
        Err(HandshakeError::TooOld(remote))
    } else if remote > MAX_PROTOCOL_VERSION {
        Err(HandshakeError::TooNew(remote))
    } else if remote < PROTOCOL_VERSION {
        Ok(remote)
    } else {
        Ok(PROTOCOL_VERSION)
    }
}

/// The version that is spoken, given what came from the other side, and what
/// comes behind.
pub open spec fn parse_version(buf: Seq<u8>) -> Result<(u32, Seq<u8>), HandshakeError> {
    match parse_int(buf) {
        Err(e) => Err(HandshakeError::Wire(e)),
        Ok((v, rest)) => match common_version(bits32(v) as u32) {
            Err(e) => Err(e),
            Ok(p) => Ok((p, rest)),
        },
    }
}

/// Says which version this side speaks.
pub fn write_version(w: &mut Vec<u8>)
    ensures
        final(w)@ == old(w)@ + enc_int(PROTOCOL_VERSION as i32),
{
    write_int(w, PROTOCOL_VERSION as i32);
}

/// Reads which version the other side speaks and settles on one.
pub fn read_version(r: &mut ByteReader) -> (res: Result<u32, HandshakeError>)
    ensures
        match res {
            Ok(p) => parse_version(old(r)@) == Ok::<(u32, Seq<u8>), HandshakeError>(
                (p, final(r)@),
            ),
            Err(e) => parse_version(old(r)@) == Err::<(u32, Seq<u8>), HandshakeError>(e) && match e {
                HandshakeError::Wire(_) => final(r)@ == old(r)@,
                _ => parse_int(old(r)@) matches Ok((_, rest)) && final(r)@ == rest,
            },
        },
{
    proof {
        reveal(parse_int);
    }
    let remote: u32 = match read_int(r) {
        Err(e) => return Err(HandshakeError::Wire(e)),
        Ok(v) => bits32_of(v),
    };
    if remote < MIN_PROTOCOL_VERSION {
        Err(HandshakeError::TooOld(remote))
    } else if remote > MAX_PROTOCOL_VERSION {
        Err(HandshakeError::TooNew(remote))
    } else if remote < PROTOCOL_VERSION {
        Ok(remote)
    } else {
        Ok(PROTOCOL_VERSION)
    }
}

/// Exchanges versions over what the other side sent already.  A server speaks
/// only once it has heard the client.
pub fn protocol_handshake(r: &mut ByteReader, w: &mut Vec<u8>, am_server: bool) -> (res: Result<
    u32,
    HandshakeError,
>)
    ensures
        match res {
            Ok(p) => parse_version(old(r)@) == Ok::<(u32, Seq<u8>), HandshakeError>(
                (p, final(r)@),
            ),
            Err(e) => parse_version(old(r)@) == Err::<(u32, Seq<u8>), HandshakeError>(e) && match e {
                HandshakeError::Wire(_) => final(r)@ == old(r)@,
                _ => parse_int(old(r)@) matches Ok((_, rest)) && final(r)@ == rest,
            },
        },
        final(w)@ == if am_server && parse_int(old(r)@) is Err {
            old(w)@
        } else {
            old(w)@ + enc_int(PROTOCOL_VERSION as i32)
        },
{
    proof {
        reveal(parse_int);
    }
    let res: Result<u32, HandshakeError> = read_version(r);
    let heard: bool = match res {
        Err(HandshakeError::Wire(_)) => false,
        _ => true,
    };
    if heard || !am_server {
        write_version(w);
    }
    res
}

/// Two sides of this library settle on its version, and what comes behind is
/// left.
pub proof fn versions_agree(tail: Seq<u8>)
    ensures
        parse_version(enc_int(PROTOCOL_VERSION as i32) + tail) == Ok::<
            (u32, Seq<u8>),
            HandshakeError,
        >((PROTOCOL_VERSION, tail)),
{
    lemma_parse_int(PROTOCOL_VERSION as i32, tail);
}

// ---------------------------------------------------------------------------
// What both sides support
// ---------------------------------------------------------------------------

/// The first word of ours that is also one of the other side's.
pub open spec fn first_common(ours: Seq<Seq<char>>, theirs: Seq<Seq<char>>) -> Option<Seq<char>>
    decreases ours.len(),
{
    if ours.len() == 0 {
        None
    } else if theirs.contains(ours[0]) {
        Some(ours[0])
    } else {
        first_common(ours.skip(1), theirs)
    }
}

fn among(v: &Vec<String>, s: &str) -> (b: bool)
    ensures
        b == texts(v@).contains(s@),
{
    let mut i: usize = 0;
    while i < v.len()
        invariant
            i <= v@.len(),
            forall|k: int| 0 <= k < i ==> v@[k]@ != s@,
        decreases v@.len() - i,
    {
        if same_text(v[i].as_str(), s) {
            assert(texts(v@)[i as int] == s@);
            return true;
        }
        i = i + 1;
    }
    assert(!texts(v@).contains(s@));
    false
}

/// Picks the first word of our list that is also in the other side's.
pub fn negotiate(our_list: &str, peer_list: &str) -> (res: Option<String>)
    ensures
        match res {
            Some(s) => first_common(words(our_list@), words(peer_list@)) == Some(s@),
            None => first_common(words(our_list@), words(peer_list@)) == None::<Seq<char>>,
        },
{
    let ours: Vec<String> = split_words(our_list);
    let theirs: Vec<String> = split_words(peer_list);
    let ghost all = texts(ours@);
    let mut i: usize = 0;
    assert(all.skip(0) =~= all);
    while i < ours.len()
        invariant
            i <= ours@.len(),
            all == texts(ours@),
            all == words(our_list@),
            texts(theirs@) == words(peer_list@),
            first_common(all.skip(i as int), texts(theirs@)) == first_common(all, texts(theirs@)),
        decreases ours@.len() - i,
    {
        let ghost rest = all.skip(i as int);
        assert(rest[0] == ours@[i as int]@);
        assert(rest.skip(1) =~= all.skip(i + 1));
        if among(&theirs, ours[i].as_str()) {
            return Some(ours[i].clone());
        }
        i = i + 1;
    }
    None
}

/// The features that a server offers.  File lists always come in one piece,
/// so incremental recursion is not among them.
pub open spec fn offered_flags() -> u32 {
    (CF_VARINT_FLIST_FLAGS + CF_SAFE_FLIST) as u32
}

/// The lists of checksums, and of compressions where they are asked for.
pub open spec fn lists_bytes(do_compression: bool) -> Seq<u8> {
    enc_vstring(encode_utf8("md5"@)) + if do_compression {
        enc_vstring(encode_utf8("zlib none"@))
    } else {
        Seq::empty()
    }
}

/// Writes the lists of checksums and compressions.
pub fn write_lists(w: &mut Vec<u8>, do_compression: bool)
    ensures
        final(w)@ == old(w)@ + lists_bytes(do_compression),
{
    proof {
        lemma_short("md5"@, "zlib none"@);
    }
    let ghost start = w@;
    let _sent: Result<(), WireError> = write_vstring(w, "md5");
    if do_compression {
        let _sent: Result<(), WireError> = write_vstring(w, "zlib none");
    }
    assert(w@ =~= start + lists_bytes(do_compression));
}

proof fn lemma_short(a: Seq<char>, b: Seq<char>)
    requires
        a == "md5"@,
        b == "zlib none"@,
    ensures
        encode_utf8(a).len() <= 0x7fff,
        encode_utf8(b).len() <= 0x7fff,
{
    reveal_strlit("md5");
    reveal_strlit("zlib none");
    vstd::utf8::is_ascii_chars_encode_utf8(a);
    vstd::utf8::is_ascii_chars_encode_utf8(b);
}

/// What a server offers before it has heard of the client: its features and
/// its lists.
pub fn offer_compat(w: &mut Vec<u8>, do_compression: bool) -> (flags: u32)
    ensures
        flags == offered_flags(),
        final(w)@ == old(w)@ + enc_varint(flags as i32) + lists_bytes(do_compression),
{
    let flags: u32 = CF_VARINT_FLIST_FLAGS + CF_SAFE_FLIST;
    write_varint(w, flags as i32);
    write_lists(w, do_compression);
    flags
}

/// The lists at the front of `buf`: that of compressions only where they are
/// asked for.
pub open spec fn parse_lists(buf: Seq<u8>, do_compression: bool) -> Parsed<Option<Seq<char>>> {
    match parse_xname(buf) {
        Err(e) => Err(e),
        Ok((_sums, rest)) => if do_compression {
            match parse_xname(rest) {
                Err(e) => Err(e),
                Ok((list, rest)) => Ok((Some(list), rest)),
            }
        } else {
            Ok((None, rest))
        },
    }
}

/// The compression that both sides know, given the other side's list.
pub open spec fn chosen_compression(list: Option<Seq<char>>) -> Option<Seq<char>> {
    match list {
        Some(l) => first_common(words("zlib none"@), words(l)),
        None => None,
    }
}

/// Reads the other side's lists.  Where they are cut off, nothing is taken.
pub fn read_lists(r: &mut ByteReader, do_compression: bool) -> (res: Result<
    Option<String>,
    WireError,
>)
    ensures
        match res {
            Ok(Some(l)) => parse_lists(old(r)@, do_compression) == Ok::<
                (Option<Seq<char>>, Seq<u8>),
                WireError,
            >((Some(l@), final(r)@)),
            Ok(None) => parse_lists(old(r)@, do_compression) == Ok::<
                (Option<Seq<char>>, Seq<u8>),
                WireError,
            >((None, final(r)@)),
            Err(e) => parse_lists(old(r)@, do_compression) == Err::<
                (Option<Seq<char>>, Seq<u8>),
                WireError,
            >(e) && final(r)@ == old(r)@,
        },
        forall|q: nat| #[trigger] final(r).at(q) == old(r).at(q),
{
    proof {
        reveal(parse_xname);
    }
    let start: usize = r.position();
    match read_vstring(r) {
        Err(e) => return Err(e),
        Ok(_) => {},
    }
    if !do_compression {
        return Ok(None);
    }
    match read_vstring(r) {
        Err(e) => {
            r.seek(start);
            Err(e)
        },
        Ok(l) => Ok(Some(l)),
    }
}

/// Picks the compression.
pub fn choose_compression(list: &Option<String>) -> (res: Option<String>)
    ensures
        match res {
            Some(s) => chosen_compression(crate::protocol::types::opt_text(*list)) == Some(s@),
            None => chosen_compression(crate::protocol::types::opt_text(*list)) == None::<Seq<char>>,
        },
{
    match list {
        Some(l) => negotiate("zlib none", l.as_str()),
        None => None,
    }
}

/// Whether data is compressed: only one compression is known.
pub fn uses_zlib(choice: &Option<String>) -> (b: bool)
    ensures
        b == (choice matches Some(s) && s@ == "zlib"@),
{
    match choice {
        Some(s) => same_text(s.as_str(), "zlib"),
        None => false,
    }
}

/// What a server offers, as the client reads it.
#[derive(Debug)]
pub struct Offer {
    pub flags: u32,
    /// The server's list of compressions, where it was asked for.
    pub compressions: Option<String>,
}

/// The offer at the front of `buf`: the features, and the lists where the
/// features say that they follow.
pub open spec fn parse_offer(buf: Seq<u8>, do_compression: bool) -> Parsed<
    (u32, Option<Seq<char>>),
> {
    match parse_varint(buf) {
        Err(e) => Err(e),
        Ok((f, rest)) => {
            let flags = bits32(f) as u32;
            if flag_set(flags, CF_VARINT_FLIST_FLAGS) {
                match parse_lists(rest, do_compression) {
                    Err(e) => Err(e),
                    Ok((list, rest)) => Ok(((flags, list), rest)),
                }
            } else {
                Ok(((flags, None), rest))
            }
        },
    }
}

/// Reads a server's offer.  Where it is cut off, nothing is taken.
pub fn read_offer(r: &mut ByteReader, do_compression: bool) -> (res: Result<Offer, WireError>)
    ensures
        match res {
            Ok(o) => parse_offer(old(r)@, do_compression) == Ok::<
                ((u32, Option<Seq<char>>), Seq<u8>),
                WireError,
            >(((o.flags, crate::protocol::types::opt_text(o.compressions)), final(r)@)),
            Err(e) => parse_offer(old(r)@, do_compression) == Err::<
                ((u32, Option<Seq<char>>), Seq<u8>),
                WireError,
            >(e) && final(r)@ == old(r)@,
        },
{
    proof {
        reveal(parse_varint);
    }
    let start: usize = r.position();
    let flags: u32 = match read_varint(r) {
        Err(e) => return Err(e),
        Ok(f) => bits32_of(f),
    };
    if !has_bit(flags, CF_VARINT_FLIST_FLAGS) {
        return Ok(Offer { flags, compressions: None });
    }
    match read_lists(r, do_compression) {
        Err(e) => {
            r.seek(start);
            Err(e)
        },
        Ok(Some(list)) => Ok(Offer { flags, compressions: Some(list) }),
        Ok(None) => Ok(Offer { flags, compressions: None }),
    }
}

/// The seed of the checksums: the time in seconds and the number of the
/// process, mixed.
pub fn seed_of(secs: u64, pid: u32) -> (seed: i32)
    ensures
        seed == ((secs as u32) ^ (pid << 6)) as i32,
{
    ((secs as u32) ^ (pid << 6)) as i32
}

/// The name that a checksum goes by between the two sides.
pub open spec fn csum_name(ct: ChecksumType) -> CsumType {
    match ct {
        ChecksumType::Md4Archaic => CsumType::Md4Archaic,
        ChecksumType::Md4Busted => CsumType::Md4Busted,
        ChecksumType::Md4Old => CsumType::Md4Old,
        ChecksumType::Md4 => CsumType::Md4,
        ChecksumType::Md5 => CsumType::Md5,
        ChecksumType::NoSum => CsumType::NoSum,
    }
}

/// The checksum of a protocol, by the name that is agreed on.
pub fn strong_to_csum_type(ct: ChecksumType) -> (c: CsumType)
    ensures
        c == csum_name(ct),
        crate::pipeline::computed_type(c) == ct,
{
    match ct {
        ChecksumType::Md4Archaic => CsumType::Md4Archaic,
        ChecksumType::Md4Busted => CsumType::Md4Busted,
        ChecksumType::Md4Old => CsumType::Md4Old,
        ChecksumType::Md4 => CsumType::Md4,
        ChecksumType::Md5 => CsumType::Md5,
        ChecksumType::NoSum => CsumType::NoSum,
    }
}

// ---------------------------------------------------------------------------
// Filter rules
// ---------------------------------------------------------------------------

/// Rules on the wire, each behind its length.
pub open spec fn rules_bytes(rules: Seq<Rule>) -> Seq<u8>
    decreases rules.len(),
{
    if rules.len() == 0 {
        Seq::empty()
    } else {
        let b = encode_utf8(rule_line(rules[0]));
        enc_int(b.len() as i32) + b + rules_bytes(rules.skip(1))
    }
}

/// Sends the rules and says that there are no more.
pub fn send_filter_list(w: &mut Vec<u8>, filter: &FilterList)
    ensures
        final(w)@ == old(w)@ + rules_bytes(filter@) + enc_int(0),
{
    let ghost all = filter@;
    let mut i: usize = 0;
    assert(all.skip(0) =~= all);
    while i < filter.rules.len()
        invariant
            i <= filter.rules@.len(),
            all == filter@,
            w@ + rules_bytes(all.skip(i as int)) == old(w)@ + rules_bytes(all),
        decreases filter.rules@.len() - i,
    {
        let r: &FilterRule = &filter.rules[i];
        let ghost rest = all.skip(i as int);
        assert(rest[0] == r@);
        assert(rest.skip(1) =~= all.skip(i + 1));
        let line: String = r.to_line();
        let b: &[u8] = line.as_str().as_bytes();
        let ghost before = w@;
        write_int(w, b.len() as i32);
        put_bytes(w, b);
        assert(w@ + rules_bytes(rest.skip(1)) =~= before + (enc_int(b@.len() as i32) + b@
            + rules_bytes(rest.skip(1))));
        i = i + 1;
    }
    assert(w@ + rules_bytes(all.skip(i as int)) =~= w@);
    write_int(w, 0);
}

/// The rules at the front of `buf`, behind those read so far.  A rule that is
/// not valid UTF-8 is passed over.
pub open spec fn parse_rules(buf: Seq<u8>, so_far: Seq<Rule>) -> Parsed<Seq<Rule>>
    decreases buf.len(),
{
    match parse_int(buf) {
        Err(e) => Err(e),
        Ok((n, rest)) => if n == 0 {
            Ok((so_far, rest))
        } else if n < 0 {
            Err(WireError::NegativeLength)
        } else {
            match parse_bytes(rest, n as int) {
                Err(e) => Err(e),
                Ok((b, rest)) => if rest.len() < buf.len() {
                    parse_rules(rest, with_line(so_far, b))
                } else {
                    Err(WireError::UnexpectedEof)
                },
            }
        },
    }
}

/// Some rules with the one that a received line stands for.
pub open spec fn with_line(so_far: Seq<Rule>, b: Seq<u8>) -> Seq<Rule> {
    if valid_utf8(b) {
        match parsed_rule(decode_utf8(b)) {
            Some(r) => so_far.push(r),
            None => so_far,
        }
    } else {
        so_far
    }
}

/// Reads the rules of the other side.  Where they are cut off, nothing is
/// taken.
pub fn recv_and_parse_filter_list(r: &mut ByteReader) -> (res: Result<FilterList, WireError>)
    ensures
        match res {
            Ok(f) => parse_rules(old(r)@, Seq::empty()) == Ok::<(Seq<Rule>, Seq<u8>), WireError>(
                (f@, final(r)@),
            ),
            Err(e) => parse_rules(old(r)@, Seq::empty()) == Err::<(Seq<Rule>, Seq<u8>), WireError>(
                e,
            ) && final(r)@ == old(r)@,
        },
{
    let start: usize = r.position();
    let mut filter: FilterList = FilterList::new();
    loop
        invariant
            parse_rules(r@, filter@) == parse_rules(old(r)@, Seq::empty()),
            r.at(start as nat) == old(r)@,
        decreases r@.len(),
    {
        proof {
            reveal(parse_int);
            reveal(parse_bytes);
        }
        let n: i32 = match read_int(r) {
            Err(e) => {
                r.seek(start);
                return Err(e);
            },
            Ok(n) => n,
        };
        if n == 0 {
            return Ok(filter);
        }
        if n < 0 {
            r.seek(start);
            return Err(WireError::NegativeLength);
        }
        let b: Vec<u8> = match r.take_bytes(n as usize) {
            Err(e) => {
                r.seek(start);
                return Err(e);
            },
            Ok(b) => b,
        };
        let ghost before = filter@;
        match utf8_text(b.as_slice()) {
            Some(s) => filter.parse_rule(s.as_str()),
            None => {},
        }
        assert(filter@ == with_line(before, b@));
    }
}

/// Reads the rules of the other side and passes them over.
pub fn recv_filter_list(r: &mut ByteReader) -> (res: Result<(), WireError>)
    ensures
        match res {
            Ok(_) => parse_rules(old(r)@, Seq::empty()) matches Ok((_rules, rest)) && rest
                == final(r)@,
            Err(e) => parse_rules(old(r)@, Seq::empty()) == Err::<(Seq<Rule>, Seq<u8>), WireError>(
                e,
            ) && final(r)@ == old(r)@,
        },
{
    match recv_and_parse_filter_list(r) {
        Err(e) => Err(e),
        Ok(_) => Ok(()),
    }
}

// ---------------------------------------------------------------------------
// Counters
// ---------------------------------------------------------------------------

/// The counters that a sender reports at the end.
pub open spec fn stats_bytes(s: Stats, protocol: u32) -> Seq<u8> {
    enc_varlong(s.total_read, 3) + enc_varlong(s.total_written, 3) + enc_varlong(s.total_size, 3)
        + if protocol >= 29 {
        enc_varlong(0, 3) + enc_varlong(0, 3)
    } else {
        Seq::empty()
    }
}

/// Reports the counters at the end.
pub fn write_stats(w: &mut Vec<u8>, stats: &Stats, protocol: u32)
    ensures
        final(w)@ == old(w)@ + stats_bytes(*stats, protocol),
{
    let ghost start = w@;
    write_varlong(w, stats.total_read, 3);
    write_varlong(w, stats.total_written, 3);
    write_varlong(w, stats.total_size, 3);
    if protocol >= 29 {
        write_varlong(w, 0, 3);
        write_varlong(w, 0, 3);
    }
    assert(w@ =~= start + stats_bytes(*stats, protocol));
}

/// The number at the front of `buf`, and what comes behind; 0 where none is
/// there.
pub open spec fn number_or_zero(buf: Seq<u8>) -> (i64, Seq<u8>) {
    match parse_varlong(buf, 3) {
        Ok((x, rest)) => (x, rest),
        Err(_) => (0, buf),
    }
}

/// The counters after a sender's report: what it wrote counts as read here
/// and the other way round.  A counter that is missing is 0.
pub open spec fn stats_after(s: Stats, buf: Seq<u8>) -> (Stats, Seq<u8>) {
    let (a, r1) = number_or_zero(buf);
    let (b, r2) = number_or_zero(r1);
    let (c, r3) = number_or_zero(r2);
    let (_d, r4) = number_or_zero(r3);
    let (_e, r5) = number_or_zero(r4);
    (Stats { total_written: a, total_read: b, total_size: c, ..s }, r5)
}

fn read_number(r: &mut ByteReader) -> (x: i64)
    ensures
        number_or_zero(old(r)@) == (x, final(r)@),
{
    proof {
        reveal(parse_varlong);
    }
    match read_varlong(r, 3) {
        Ok(x) => x,
        Err(_) => 0,
    }
}

/// Takes over the counters that a sender reports.
pub fn read_stats(r: &mut ByteReader, stats: &mut Stats)
    ensures
        (*final(stats), final(r)@) == stats_after(*old(stats), old(r)@),
{
    let a: i64 = read_number(r);
    let b: i64 = read_number(r);
    let c: i64 = read_number(r);
    let _d: i64 = read_number(r);
    let _e: i64 = read_number(r);
    stats.total_written = a;
    stats.total_read = b;
    stats.total_size = c;
}

/// Both sides have the same size, and each has as written what the other has
/// as read, once the report of the sender is taken over.
pub proof fn stats_round_trip(s: Stats, mine: Stats, protocol: u32, tail: Seq<u8>)
    requires
        protocol >= 29,
    ensures
        stats_after(mine, stats_bytes(s, protocol) + tail) == (
            Stats {
                total_written: s.total_read,
                total_read: s.total_written,
                total_size: s.total_size,
                ..mine
            },
            tail,
        ),
{
    let a = enc_varlong(s.total_read, 3);
    let b = enc_varlong(s.total_written, 3);
    let c = enc_varlong(s.total_size, 3);
    let z = enc_varlong(0, 3);
    let r4 = z + tail;
    let r3 = z + r4;
    let r2 = c + r3;
    let r1 = b + r2;
    assert(stats_bytes(s, protocol) + tail =~= a + r1);
    lemma_parse_varlong(s.total_read, 3, r1);
    lemma_parse_varlong(s.total_written, 3, r2);
    lemma_parse_varlong(s.total_size, 3, r3);
    lemma_parse_varlong(0, 3, r4);
    lemma_parse_varlong(0, 3, tail);
}

/// Whether a goodbye of the other side is answered.
pub open spec fn goodbye_is_answered(protocol: u32, ndx: i32) -> bool {
    protocol >= 31 && ndx == NDX_DONE
}

/// Whether a sender that has heard `ndx` at the end answers, and waits for
/// one word more.
pub fn answers_goodbye(protocol: u32, ndx: i32) -> (b: bool)
    ensures
        b == goodbye_is_answered(protocol, ndx),
        b == (protocol >= 31 && ndx == NDX_DONE),
{
    protocol >= 31 && ndx == NDX_DONE
}

// ---------------------------------------------------------------------------
// Laws
// ---------------------------------------------------------------------------

proof fn lemma_parse_xname(t: Seq<char>, tail: Seq<u8>)
    requires
        encode_utf8(t).len() <= 0x7fff,
    ensures
        parse_xname(enc_vstring(encode_utf8(t)) + tail) == Ok::<(Seq<char>, Seq<u8>), WireError>(
            (t, tail),
        ),
{
    reveal(parse_xname);
    vstring_round_trip(t, tail);
    let b = enc_vstring(encode_utf8(t));
    assert((b + tail).skip(b.len() as int) =~= tail);
}

/// The lists of one side are read by the other as they were written.
pub proof fn lists_round_trip(do_compression: bool, tail: Seq<u8>)
    ensures
        parse_lists(lists_bytes(do_compression) + tail, do_compression) == Ok::<
            (Option<Seq<char>>, Seq<u8>),
            WireError,
        >(
            (
                if do_compression {
                    Some("zlib none"@)
                } else {
                    None
                },
                tail,
            ),
        ),
{
    lemma_short("md5"@, "zlib none"@);
    let a = enc_vstring(encode_utf8("md5"@));
    let b = if do_compression {
        enc_vstring(encode_utf8("zlib none"@))
    } else {
        Seq::empty()
    };
    assert(lists_bytes(do_compression) + tail =~= a + (b + tail));
    lemma_parse_xname("md5"@, b + tail);
    if do_compression {
        lemma_parse_xname("zlib none"@, tail);
    } else {
        assert(b + tail =~= tail);
    }
}

/// A client reads a server's offer as it was made.
pub proof fn offer_round_trip(do_compression: bool, tail: Seq<u8>)
    ensures
        parse_offer(
            enc_varint(offered_flags() as i32) + lists_bytes(do_compression) + tail,
            do_compression,
        ) == Ok::<((u32, Option<Seq<char>>), Seq<u8>), WireError>(
            (
                (
                    offered_flags(),
                    if do_compression {
                        Some("zlib none"@)
                    } else {
                        None
                    },
                ),
                tail,
            ),
        ),
{
    let f = offered_flags();
    let rest = lists_bytes(do_compression) + tail;
    assert(enc_varint(f as i32) + lists_bytes(do_compression) + tail =~= enc_varint(f as i32)
        + rest);
    lemma_parse_varint(f as i32, rest);
    lists_round_trip(do_compression, tail);
}

proof fn lemma_rules_travel(rules: Seq<Rule>, so_far: Seq<Rule>, tail: Seq<u8>)
    requires
        forall|i: int| 0 <= i < rules.len() ==> rule_travels(#[trigger] rules[i]),
    ensures
        parse_rules(rules_bytes(rules) + enc_int(0) + tail, so_far) == Ok::<
            (Seq<Rule>, Seq<u8>),
            WireError,
        >((so_far + rules, tail)),
    decreases rules.len(),
{
    let buf = rules_bytes(rules) + enc_int(0) + tail;
    if rules.len() == 0 {
        assert(buf =~= enc_int(0) + tail);
        lemma_parse_int(0, tail);
        assert(so_far + rules =~= so_far);
    } else {
        let line = rule_line(rules[0]);
        let b = encode_utf8(line);
        let rest = rules_bytes(rules.skip(1)) + enc_int(0) + tail;
        assert(buf =~= enc_int(b.len() as i32) + (b + rest));
        assert(b.len() > 0) by {
            reveal_strlit("!");
            reveal_strlit("+ ");
            reveal_strlit("- ");
            lemma_encode_len(line);
        }
        lemma_parse_int(b.len() as i32, b + rest);
        lemma_parse_bytes(b, rest);
        encode_utf8_valid_utf8(line);
        encode_utf8_decode_utf8(line);
        rule_line_is_read_back(rules[0]);
        assert(rest.len() < buf.len());
        lemma_rules_travel(rules.skip(1), so_far.push(rules[0]), tail);
        assert(so_far.push(rules[0]) + rules.skip(1) =~= so_far + rules);
    }
}

/// Whether a rule survives the wire.
pub open spec fn rule_travels(r: Rule) -> bool {
    &&& is_made(r)
    &&& fits_line(r)
    &&& encode_utf8(rule_line(r)).len() <= i32::MAX
}

/// The rules that one side sends are the rules that the other reads.
pub proof fn filter_list_round_trip(rules: Seq<Rule>, tail: Seq<u8>)
    requires
        forall|i: int| 0 <= i < rules.len() ==> rule_travels(#[trigger] rules[i]),
    ensures
        parse_rules(rules_bytes(rules) + enc_int(0) + tail, Seq::empty()) == Ok::<
            (Seq<Rule>, Seq<u8>),
            WireError,
        >((rules, tail)),
{
    lemma_rules_travel(rules, Seq::empty(), tail);
    assert(Seq::<Rule>::empty() + rules =~= rules);
}

} // verus!
