use rsync_rs::io::bytes::ByteReader;
use rsync_rs::io::varint::{read_byte, read_int, read_longint, read_shortint, read_varint, read_varlong, write_byte, write_int, write_longint, write_shortint, write_varint, write_varlong};

fn reader(bytes: &[u8]) -> ByteReader {
    ByteReader::new(bytes.to_vec())
}

fn encode_varint(x: i32) -> Vec<u8> {
    let mut buf = Vec::new();
    write_varint(&mut buf, x);
    buf
}

fn decode_varint(bytes: &[u8]) -> i32 {
    read_varint(&mut reader(&bytes)).unwrap()
}

fn encode_varlong(x: i64, mb: u8) -> Vec<u8> {
    let mut buf = Vec::new();
    write_varlong(&mut buf, x, mb);
    buf
}

fn decode_varlong(bytes: &[u8], mb: u8) -> i64 {
    read_varlong(&mut reader(&bytes), mb).unwrap()
}

#[test]
fn varint_zero() {
    assert_eq!(encode_varint(0), vec![0x00]);
    assert_eq!(decode_varint(&[0x00]), 0);
}

#[test]
fn varint_one() {
    assert_eq!(encode_varint(1), vec![0x01]);
    assert_eq!(decode_varint(&[0x01]), 1);
}

#[test]
fn varint_127() {
    assert_eq!(encode_varint(127), vec![0x7F]);
    assert_eq!(decode_varint(&[0x7F]), 127);
}

#[test]
fn varint_128() {
    assert_eq!(encode_varint(128), vec![0x80, 0x80]);
    assert_eq!(decode_varint(&[0x80, 0x80]), 128);
}

#[test]
fn varint_16383() {
    assert_eq!(encode_varint(16383), vec![0xBF, 0xFF]);
    assert_eq!(decode_varint(&[0xBF, 0xFF]), 16383);
}

#[test]
fn varint_16384() {
    assert_eq!(encode_varint(16384), vec![0xC0, 0x00, 0x40]);
    assert_eq!(decode_varint(&[0xC0, 0x00, 0x40]), 16384);
}

#[test]
fn varint_2097151() {
    assert_eq!(encode_varint(0x1FFFFF), vec![0xDF, 0xFF, 0xFF]);
    assert_eq!(decode_varint(&[0xDF, 0xFF, 0xFF]), 0x1FFFFF);
}

#[test]
fn varint_2097152() {
    assert_eq!(encode_varint(0x200000), vec![0xE0, 0x00, 0x00, 0x20]);
    assert_eq!(decode_varint(&[0xE0, 0x00, 0x00, 0x20]), 0x200000);
}

#[test]
fn varint_max_positive() {
    let bytes = encode_varint(i32::MAX);
    assert_eq!(decode_varint(&bytes), i32::MAX);
}

#[test]
fn varint_minus_one() {
    assert_eq!(encode_varint(-1), vec![0xF0, 0xFF, 0xFF, 0xFF, 0xFF]);
    assert_eq!(decode_varint(&[0xF0, 0xFF, 0xFF, 0xFF, 0xFF]), -1);
}

#[test]
fn varint_roundtrip_range() {
    for x in [
        0, 1, 63, 64, 127, 128, 255, 256, 16383, 16384, 1 << 20, 1 << 28,
        i32::MAX, -1, -128, i32::MIN,
    ] {
        let encoded = encode_varint(x);
        assert_eq!(decode_varint(&encoded), x, "roundtrip failed for {}", x);
    }
}

#[test]
fn varlong_zero_mb3() {
    let enc = encode_varlong(0, 3);
    assert_eq!(decode_varlong(&enc, 3), 0);
}

#[test]
fn varlong_zero_mb4() {
    let enc = encode_varlong(0, 4);
    assert_eq!(decode_varlong(&enc, 4), 0);
}

#[test]
fn varlong_one_mb3() {
    let enc = encode_varlong(1, 3);
    assert_eq!(decode_varlong(&enc, 3), 1);
}

#[test]
fn varlong_file_length_mb3() {
    for x in [0i64, 1, 100, 0xFFFF, 0xFFFFFF, 0x1_0000_0000, i64::MAX / 2] {
        let enc = encode_varlong(x, 3);
        assert_eq!(decode_varlong(&enc, 3), x, "varlong({}, 3) roundtrip", x);
    }
}

#[test]
fn varlong_timestamp_mb4() {
    for x in [0i64, 1, 1_700_000_000, i32::MAX as i64, i64::MAX / 4] {
        let enc = encode_varlong(x, 4);
        assert_eq!(decode_varlong(&enc, 4), x, "varlong({}, 4) roundtrip", x);
    }
}

#[test]
fn read_write_int_roundtrip() {
    for x in [0i32, 1, -1, i32::MAX, i32::MIN, 0x12345678u32 as i32] {
        let mut buf = Vec::new();
        write_int(&mut buf, x);
        assert_eq!(buf.len(), 4);
        let got = read_int(&mut reader(&buf)).unwrap();
        assert_eq!(got, x);
    }
}

#[test]
fn read_write_longint_roundtrip() {
    for x in [0i64, 1, i32::MAX as i64, i32::MAX as i64 + 1, -1, i64::MIN] {
        let mut buf = Vec::new();
        write_longint(&mut buf, x);
        let got = read_longint(&mut reader(&buf)).unwrap();
        assert_eq!(got, x, "longint({}) roundtrip", x);
    }
}

#[test]
fn longint_small_is_4_bytes() {
    let mut buf = Vec::new();
    write_longint(&mut buf, 42);
    assert_eq!(buf.len(), 4);
}

#[test]
fn longint_large_is_12_bytes() {
    let mut buf = Vec::new();
    write_longint(&mut buf, i32::MAX as i64 + 1);
    assert_eq!(buf.len(), 12);
    assert_eq!(&buf[..4], &[0xFF, 0xFF, 0xFF, 0xFF]);
}

#[test]
fn read_write_shortint_roundtrip() {
    for x in [0u16, 1, 0xFF, 0x100, u16::MAX] {
        let mut buf = Vec::new();
        write_shortint(&mut buf, x);
        assert_eq!(buf.len(), 2);
        let got = read_shortint(&mut reader(&buf)).unwrap();
        assert_eq!(got, x);
    }
}

#[test]
fn read_write_byte_roundtrip() {
    for x in [0u8, 1, 127, 128, 255] {
        let mut buf = Vec::new();
        write_byte(&mut buf, x);
        assert_eq!(buf.len(), 1);
        assert_eq!(read_byte(&mut reader(&buf)).unwrap(), x);
    }
}
