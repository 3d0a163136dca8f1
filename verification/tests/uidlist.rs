use rsync_rs::io::bytes::{ByteReader, WireError};
use rsync_rs::uidlist::{add_name, listed_name, take_id, UidList};
use std::collections::HashMap;

fn reader(bytes: &[u8]) -> ByteReader {
    ByteReader::new(bytes.to_vec())
}

fn round_trip_uid(uid_map: HashMap<u32, String>) -> HashMap<u32, String> {
    let mut list = UidList::new();
    list.uid_map = uid_map;

    let mut buf = Vec::new();
    list.send_uid_list(&mut buf);

    let mut received = UidList::new();
    received.recv_uid_list(&mut reader(&buf)).unwrap();
    received.uid_map
}

#[test]
fn send_recv_uid_list_roundtrip() {
    let mut map = HashMap::new();
    map.insert(1000u32, "alice".to_string());
    map.insert(1001u32, "bob".to_string());

    let got = round_trip_uid(map.clone());
    assert_eq!(got.get(&1000), Some(&"alice".to_string()));
    assert_eq!(got.get(&1001), Some(&"bob".to_string()));
}

#[test]
fn send_recv_gid_list_roundtrip() {
    let mut list = UidList::new();
    list.gid_map.insert(100u32, "users".to_string());
    list.gid_map.insert(0u32, "root".to_string()); // id=0 is skipped on send

    let mut buf = Vec::new();
    list.send_gid_list(&mut buf);

    let mut received = UidList::new();
    received.recv_gid_list(&mut reader(&buf)).unwrap();

    assert_eq!(received.gid_map.get(&100), Some(&"users".to_string()));
    assert!(!received.gid_map.contains_key(&0));
}

#[test]
fn empty_list_terminates_immediately() {
    let list = UidList::new();
    let mut buf = Vec::new();
    list.send_uid_list(&mut buf);
    assert_eq!(buf, vec![0x00]);
}

#[test]
fn name_truncated_at_255() {
    let long_name = "x".repeat(300);
    let mut list = UidList::new();
    list.uid_map.insert(42, long_name);

    let mut buf = Vec::new();
    list.send_uid_list(&mut buf);

    let mut received = UidList::new();
    received.recv_uid_list(&mut reader(&buf)).unwrap();

    let name = received.uid_map.get(&42).unwrap();
    assert_eq!(name.len(), 255);
}

#[test]
fn add_uid_dedup() {
    let mut list = UidList::new();
    list.add_uid(0);
    list.add_uid(0);
    assert_eq!(list.uid_map.len(), 1);
}

#[test]
fn map_uid_unknown_returns_zero() {
    let list = UidList::new();
    assert_eq!(list.map_uid(9999), 0);
}

#[test]
fn map_gid_unknown_returns_zero() {
    let list = UidList::new();
    assert_eq!(list.map_gid(9999), 0);
}

#[test]
fn multiple_entries_sorted_deterministically() {
    let mut list = UidList::new();
    list.uid_map.insert(5, "e".to_string());
    list.uid_map.insert(3, "c".to_string());
    list.uid_map.insert(1, "a".to_string());

    let mut buf = Vec::new();
    list.send_uid_list(&mut buf);

    let mut received = UidList::new();
    received.recv_uid_list(&mut reader(&buf)).unwrap();

    assert_eq!(received.uid_map.get(&1), Some(&"a".to_string()));
    assert_eq!(received.uid_map.get(&3), Some(&"c".to_string()));
    assert_eq!(received.uid_map.get(&5), Some(&"e".to_string()));
}

#[test]
fn a_group_is_named_once() {
    let mut list = UidList::new();
    list.add_gid(12345);
    let first = list.gid_map.get(&12345).cloned();
    list.add_gid(12345);
    assert_eq!(list.gid_map.get(&12345).cloned(), first);
    assert_eq!(list.gid_map.len(), 1);
}

#[test]
fn a_list_that_is_cut_off_is_refused() {
    let mut list = UidList::new();
    assert_eq!(list.recv_uid_list(&mut reader(&[5, 3, b'a'])), Err(WireError::UnexpectedEof));
}

#[test]
fn found_ids_are_taken_and_others_are_zero() {
    assert_eq!(take_id(Some(7)), 7);
    assert_eq!(take_id(None), 0);
    let mut map = HashMap::new();
    add_name(&mut map, 3, None);
    add_name(&mut map, 4, Some("dora".to_string()));
    add_name(&mut map, 4, Some("other".to_string()));
    assert_eq!(map.get(&3).map(|s| s.as_str()), Some("3"));
    assert_eq!(map.get(&4).map(|s| s.as_str()), Some("dora"));
}

#[test]
fn what_is_looked_up_is_the_listed_name() {
    let mut map = HashMap::new();
    map.insert(1000u32, "alice".to_string());
    assert_eq!(listed_name(&map, 1000).as_deref(), Some("alice"));
    assert_eq!(listed_name(&map, 1001), None);
}
