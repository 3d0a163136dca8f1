use rsync_rs::checksum::ChecksumType;
use rsync_rs::filter::FilterList;
use rsync_rs::io::bytes::{ByteReader, WireError};
use rsync_rs::io::varint::write_int;
use rsync_rs::protocol::constants::{CsumType, PROTOCOL_VERSION};
use rsync_rs::protocol::types::Stats;
use rsync_rs::session::{
    answers_goodbye, choose_compression, negotiate, offer_compat, protocol_handshake, read_lists,
    read_offer, read_stats, read_version, recv_and_parse_filter_list, recv_filter_list, seed_of,
    send_filter_list, strong_to_csum_type, uses_zlib, write_lists, write_stats, write_version,
    HandshakeError,
};

#[test]
fn both_sides_settle_on_one_version() {
    let mut hello = Vec::new();
    write_version(&mut hello);
    let mut out = Vec::new();
    let got = protocol_handshake(&mut ByteReader::new(hello.clone()), &mut out, true).unwrap();
    assert_eq!(got, PROTOCOL_VERSION);
    assert_eq!(out, hello);
}

#[test]
fn a_version_that_is_too_old_is_refused() {
    let mut wire = Vec::new();
    write_int(&mut wire, 19);
    assert!(matches!(
        read_version(&mut ByteReader::new(wire)),
        Err(HandshakeError::TooOld(19))
    ));
}

#[test]
fn a_version_that_makes_no_sense_is_refused() {
    let mut wire = Vec::new();
    write_int(&mut wire, 0x4f4f);
    assert!(matches!(
        read_version(&mut ByteReader::new(wire)),
        Err(HandshakeError::TooNew(_))
    ));
}

#[test]
fn a_version_that_is_cut_off_is_refused() {
    assert!(matches!(
        read_version(&mut ByteReader::new(vec![31, 0])),
        Err(HandshakeError::Wire(WireError::UnexpectedEof))
    ));
}

#[test]
fn the_first_choice_that_both_know_is_taken() {
    assert_eq!(negotiate("md5 md4", "xxh64 md4 md5").as_deref(), Some("md5"));
    assert_eq!(negotiate("md5", "xxh64"), None);
}

#[test]
fn lists_are_read_as_they_were_written() {
    let mut wire = Vec::new();
    write_lists(&mut wire, true);
    let mut r = ByteReader::new(wire);
    let list = read_lists(&mut r, true).unwrap();
    assert_eq!(r.remaining(), 0);
    let choice = choose_compression(&list);
    assert!(uses_zlib(&choice));
    let mut wire = Vec::new();
    write_lists(&mut wire, false);
    let mut r = ByteReader::new(wire);
    assert_eq!(read_lists(&mut r, false).unwrap(), None);
    assert_eq!(r.remaining(), 0);
}

#[test]
fn an_offer_is_read_as_it_was_made() {
    let mut wire = Vec::new();
    let flags = offer_compat(&mut wire, false);
    let mut r = ByteReader::new(wire);
    let offer = read_offer(&mut r, false).unwrap();
    assert_eq!(offer.flags, flags);
    assert_eq!(flags, 0x88);
    assert!(offer.compressions.is_none());
}

#[test]
fn filter_rules_reach_the_far_end() {
    let mut list = FilterList::new();
    list.add_include("keep.log");
    list.add_exclude("*.log");
    list.add_exclude("build");
    let mut wire = Vec::new();
    send_filter_list(&mut wire, &list);
    let mut r = ByteReader::new(wire.clone());
    let got = recv_and_parse_filter_list(&mut r).unwrap();
    assert_eq!(r.remaining(), 0);
    assert!(!got.is_excluded("keep.log", false));
    assert!(got.is_excluded("drop.log", false));
    assert!(got.is_excluded("build", true));
    assert!(!got.is_excluded("src", true));
    let mut r = ByteReader::new(wire);
    assert!(recv_filter_list(&mut r).is_ok());
    assert_eq!(r.remaining(), 0);
}

#[test]
fn a_rule_of_negative_length_is_refused() {
    let mut wire = Vec::new();
    write_int(&mut wire, -1);
    assert_eq!(
        recv_and_parse_filter_list(&mut ByteReader::new(wire)).err(),
        Some(WireError::NegativeLength)
    );
}

#[test]
fn counters_change_sides() {
    let mut theirs = Stats::default();
    theirs.total_read = 11;
    theirs.total_written = 22;
    theirs.total_size = 33;
    let mut wire = Vec::new();
    write_stats(&mut wire, &theirs, 31);
    let mut mine = Stats::default();
    let mut r = ByteReader::new(wire);
    read_stats(&mut r, &mut mine);
    assert_eq!(mine.total_written, 11);
    assert_eq!(mine.total_read, 22);
    assert_eq!(mine.total_size, 33);
    assert_eq!(r.remaining(), 0);
}

#[test]
fn seeds_and_sums() {
    assert_eq!(seed_of(5, 3), 5 ^ (3 << 6));
    assert_eq!(strong_to_csum_type(ChecksumType::Md5), CsumType::Md5);
    assert_eq!(strong_to_csum_type(ChecksumType::NoSum), CsumType::NoSum);
}

#[test]
fn only_new_protocols_answer_a_goodbye() {
    assert!(answers_goodbye(31, -1));
    assert!(!answers_goodbye(30, -1));
    assert!(!answers_goodbye(31, 4));
}

#[test]
fn rules_are_read_as_they_were_sent() {
    let mut list = FilterList::new();
    list.add_exclude("/top");
    list.add_exclude("cache/");
    list.add_include("/a/*.c");
    list.add_exclude("//**/x//");
    list.parse_rule("!");
    list.add_exclude("");
    list.add_exclude("/");
    list.add_exclude("two words");
    let mut wire = Vec::new();
    send_filter_list(&mut wire, &list);
    assert_eq!(wire[..10], [6, 0, 0, 0, b'-', b' ', b'/', b't', b'o', b'p']);
    let got = recv_and_parse_filter_list(&mut ByteReader::new(wire)).unwrap();
    let seen = |l: &FilterList| -> Vec<(String, u32, u32)> {
        l.rules.iter().map(|r| (r.pattern.clone(), r.rflags, r.slash_cnt)).collect()
    };
    assert_eq!(seen(&got), seen(&list));
    let mut list = FilterList::new();
    list.add_exclude("/top");
    list.add_exclude("cache/");
    let mut wire = Vec::new();
    send_filter_list(&mut wire, &list);
    let got = recv_and_parse_filter_list(&mut ByteReader::new(wire)).unwrap();
    assert!(got.is_excluded("top", false));
    assert!(!got.is_excluded("sub/top", false));
    assert!(got.is_excluded("cache", true));
    assert!(!got.is_excluded("cache", false));
}
