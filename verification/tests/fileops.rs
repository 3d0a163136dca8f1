use rsync_rs::fileops::{file_checksum, map_file};
use rsync_rs::protocol::constants::CsumType;

#[test]
fn map_file_limited() {
    let data = map_file(b"0123456789".to_vec(), 5);
    assert_eq!(data, b"01234");
}

#[test]
fn map_file_keeps_short_data() {
    assert_eq!(map_file(b"012".to_vec(), 5), b"012");
}

#[test]
fn file_checksum_md5() {
    let sum = file_checksum(b"hello", CsumType::Md5);
    assert_eq!(sum.len(), 16);
    assert_eq!(sum[..4], [0x5d, 0x41, 0x40, 0x2a]);
}
