use md5::{Digest, Md5};
use rsync_rs::checksum::md4::{md4_classic, md4_modern};
use rsync_rs::checksum::{checksum1, ChecksumType, RollingChecksum, StrongChecksum, SumHead};
use rsync_rs::io::bytes::ByteReader;

fn reader(bytes: &[u8]) -> ByteReader {
    ByteReader::new(bytes.to_vec())
}

#[test]
fn md4_modern_empty() {
    let got = md4_modern(b"");
    let expected: [u8; 16] = [
        0x31, 0xd6, 0xcf, 0xe0, 0xd1, 0x6a, 0xe9, 0x31,
        0xb7, 0x3c, 0x59, 0xd7, 0xe0, 0xc0, 0x89, 0xc0,
    ];
    assert_eq!(got, expected);
}

#[test]
fn md4_modern_a() {
    let got = md4_modern(b"a");
    let expected: [u8; 16] = [
        0xbd, 0xe5, 0x2c, 0xb3, 0x1d, 0xe3, 0x3e, 0x46,
        0x24, 0x5e, 0x05, 0xfb, 0xdb, 0xd6, 0xfb, 0x24,
    ];
    assert_eq!(got, expected);
}

#[test]
fn md4_modern_abc() {
    let got = md4_modern(b"abc");
    let expected: [u8; 16] = [
        0xa4, 0x48, 0x01, 0x7a, 0xaf, 0x21, 0xd8, 0x52,
        0x5f, 0xc1, 0x0a, 0xe8, 0x7a, 0xa6, 0x72, 0x9d,
    ];
    assert_eq!(got, expected);
}

#[test]
fn classic_and_modern_agree_for_short_data() {
    for data in &[b"abc".as_ref(), b"hello world", b"x"] {
        assert_eq!(
            md4_classic(data),
            md4_modern(data),
            "mismatch for {:?}",
            data
        );
    }
}

#[test]
fn classic_empty_returns_raw_iv() {
    let got = md4_classic(b"");
    let expected: [u8; 16] = [
        0x01, 0x23, 0x45, 0x67,  // A = 0x67452301
        0x89, 0xab, 0xcd, 0xef,  // B = 0xefcdab89
        0xfe, 0xdc, 0xba, 0x98,  // C = 0x98badcfe
        0x76, 0x54, 0x32, 0x10,  // D = 0x10325476
    ];
    assert_eq!(got, expected);
    assert_ne!(got, md4_modern(b""));
}

#[test]
fn classic_skips_finalize_for_64_byte_input() {
    let data = [0x41u8; 64]; // 64 × 'A'
    let classic = md4_classic(&data);
    let modern  = md4_modern(&data);
    assert_ne!(classic, modern, "classic should NOT equal modern for 64-byte input");
}

#[test]
fn classic_finalizes_when_remainder_nonzero() {
    let data = [0x41u8; 65]; // 64 + 1 byte
    assert_eq!(md4_classic(&data), md4_modern(&data));
}

#[test]
fn checksum1_empty() {
    assert_eq!(checksum1(b""), 0);
}

#[test]
fn checksum1_single_zero() {
    assert_eq!(checksum1(&[0u8]), 0);
}

#[test]
fn checksum1_hello_world() {
    assert_eq!(checksum1(b"hello world"), 0x1A00_045C);
}

#[test]
fn checksum1_high_byte() {
    assert_eq!(checksum1(&[0x80u8]), 0xFF80_FF80);
}

#[test]
fn checksum1_four_bytes() {
    let data = [1u8, 2, 3, 4];
    assert_eq!(checksum1(&data), 0x0014_000A);
}

#[test]
fn checksum1_five_bytes() {
    let data = [1u8, 2, 3, 4, 5];
    assert_eq!(checksum1(&data), 0x0023_000F);
}

#[test]
fn rolling_init_matches_checksum1() {
    let data = b"hello world";
    let mut rc = RollingChecksum::new();
    rc.init(data);
    assert_eq!(rc.value(), checksum1(data));
}

#[test]
fn rolling_roll_ascii() {
    let window = b"hello world";
    let mut rc = RollingChecksum::new();
    rc.init(window);
    rc.roll(b'h', b'!');
    assert_eq!(rc.value(), checksum1(b"ello world!"));
}

#[test]
fn rolling_roll_consecutive() {
    let data = [1u8, 2, 3, 4, 5];
    let k = 3;
    let mut rc = RollingChecksum::new();
    rc.init(&data[0..k]);
    rc.roll(data[0], data[3]);
    assert_eq!(rc.value(), checksum1(&data[1..4]));
    rc.roll(data[1], data[4]);
    assert_eq!(rc.value(), checksum1(&data[2..5]));
}

#[test]
fn rolling_count_preserved() {
    let data = b"abcde";
    let mut rc = RollingChecksum::new();
    rc.init(data);
    assert_eq!(rc.count, 5);
    rc.roll(b'a', b'f');
    assert_eq!(rc.count, 5); // count never changes after init
}

#[test]
fn rolling_reset() {
    let mut rc = RollingChecksum::new();
    rc.init(b"hello");
    rc.reset();
    assert_eq!(rc.s1, 0);
    assert_eq!(rc.s2, 0);
    assert_eq!(rc.count, 0);
    assert_eq!(rc.value(), 0);
}

#[test]
fn for_protocol_selects_correct_type() {
    assert_eq!(ChecksumType::for_protocol(20, false), ChecksumType::Md4Archaic);
    assert_eq!(ChecksumType::for_protocol(21, false), ChecksumType::Md4Busted);
    assert_eq!(ChecksumType::for_protocol(26, false), ChecksumType::Md4Busted);
    assert_eq!(ChecksumType::for_protocol(27, false), ChecksumType::Md4Old);
    assert_eq!(ChecksumType::for_protocol(29, false), ChecksumType::Md4Old);
    assert_eq!(ChecksumType::for_protocol(30, false), ChecksumType::Md5);
    assert_eq!(ChecksumType::for_protocol(31, true),  ChecksumType::Md5);
}

#[test]
fn digest_len_values() {
    assert_eq!(ChecksumType::Md4Archaic.digest_len(), 16);
    assert_eq!(ChecksumType::Md4Busted.digest_len(),  16);
    assert_eq!(ChecksumType::Md4Old.digest_len(),     16);
    assert_eq!(ChecksumType::Md4.digest_len(),        16);
    assert_eq!(ChecksumType::Md5.digest_len(),        16);
    assert_eq!(ChecksumType::NoSum.digest_len(),        0);
}

#[test]
fn md5_no_seed() {
    let got = StrongChecksum::compute(b"", ChecksumType::Md5, 0, false);
    let expected = [
        0xd4u8, 0x1d, 0x8c, 0xd9, 0x8f, 0x00, 0xb2, 0x04,
        0xe9, 0x80, 0x09, 0x98, 0xec, 0xf8, 0x42, 0x7e,
    ];
    assert_eq!(got.as_slice(), &expected);
}

#[test]
fn md5_hello_world_no_seed() {
    let got = StrongChecksum::compute(b"hello world", ChecksumType::Md5, 0, false);
    let expected = [
        0x5eu8, 0xb6, 0x3b, 0xbb, 0xe0, 0x1e, 0xee, 0xd0,
        0x93, 0xcb, 0x22, 0xbb, 0x8f, 0x5a, 0xcd, 0xc3,
    ];
    assert_eq!(got.as_slice(), &expected);
}

#[test]
fn md5_with_seed_old_order() {
    let seed: u32 = 1;
    let got = StrongChecksum::compute(b"hello world", ChecksumType::Md5, seed, false);
    let expected: Vec<u8> = {
        let mut h = Md5::new();
        h.update(b"hello world");
        h.update(&1u32.to_le_bytes());
        h.finalize().to_vec()
    };
    assert_eq!(got, expected);
}

#[test]
fn md5_with_seed_new_order() {
    let seed: u32 = 1;
    let got = StrongChecksum::compute(b"hello world", ChecksumType::Md5, seed, true);
    let expected: Vec<u8> = {
        let mut h = Md5::new();
        h.update(&1u32.to_le_bytes());
        h.update(b"hello world");
        h.finalize().to_vec()
    };
    assert_eq!(got, expected);
}

#[test]
fn md5_seed_order_matters() {
    let seed: u32 = 42;
    let a = StrongChecksum::compute(b"test data", ChecksumType::Md5, seed, false);
    let b = StrongChecksum::compute(b"test data", ChecksumType::Md5, seed, true);
    assert_ne!(a, b);
}

#[test]
fn md5_zero_seed_order_irrelevant() {
    let a = StrongChecksum::compute(b"data", ChecksumType::Md5, 0, false);
    let b = StrongChecksum::compute(b"data", ChecksumType::Md5, 0, true);
    assert_eq!(a, b);
}

#[test]
fn md4_old_no_seed_matches_rfc() {
    let got = StrongChecksum::compute(b"abc", ChecksumType::Md4Old, 0, false);
    let expected = [
        0xa4u8, 0x48, 0x01, 0x7a, 0xaf, 0x21, 0xd8, 0x52,
        0x5f, 0xc1, 0x0a, 0xe8, 0x7a, 0xa6, 0x72, 0x9d,
    ];
    assert_eq!(got.as_slice(), &expected);
}

#[test]
fn md4_seed_appended_not_prepended() {
    let data = b"test";
    let seed: u32 = 7;
    let a = StrongChecksum::compute(data, ChecksumType::Md4Old, seed, false);
    let b = StrongChecksum::compute(data, ChecksumType::Md4Old, seed, true);
    assert_eq!(a, b);
    let mut buf = data.to_vec();
    buf.extend_from_slice(&seed.to_le_bytes());
    assert_eq!(a, md4_modern(&buf).to_vec());
}

#[test]
fn file_checksum_no_seed() {
    let data = b"hello world";
    assert_eq!(
        StrongChecksum::file_checksum(data, ChecksumType::Md5),
        StrongChecksum::compute(data, ChecksumType::Md5, 0, false),
    );
}

#[test]
fn sum_head_roundtrip_protocol_27() {
    let head = SumHead { blength: 700, s2length: 16, count: 42, remainder: 123 };
    let mut buf = Vec::new();
    head.write(&mut buf, 27);
    assert_eq!(buf.len(), 16);
    let got = SumHead::read(&mut reader(&buf), 27).unwrap();
    assert_eq!(got.count,     42);
    assert_eq!(got.blength,  700);
    assert_eq!(got.s2length,  16);
    assert_eq!(got.remainder, 123);
}

#[test]
fn sum_head_roundtrip_protocol_26() {
    let head = SumHead { blength: 700, s2length: 16, count: 10, remainder: 5 };
    let mut buf = Vec::new();
    head.write(&mut buf, 26);
    assert_eq!(buf.len(), 12);
    let got = SumHead::read(&mut reader(&buf), 26).unwrap();
    assert_eq!(got.count,    10);
    assert_eq!(got.blength, 700);
    assert_eq!(got.s2length,  0);
    assert_eq!(got.remainder, 5);
}

#[test]
fn sum_head_wire_is_little_endian() {
    let head = SumHead { blength: 0x0102_0304, s2length: 16, count: 0xFF, remainder: 1 };
    let mut buf = Vec::new();
    head.write(&mut buf, 30);
    assert_eq!(&buf[0..4], &[0xFF, 0x00, 0x00, 0x00]);
    assert_eq!(&buf[4..8], &[0x04, 0x03, 0x02, 0x01]);
}

#[test]
fn sum_head_for_file() {
    let h = SumHead::for_file(1400, 16, 30);
    assert_eq!(h.count,     2);
    assert_eq!(h.blength, 700);
    assert_eq!(h.remainder, 0);
    assert_eq!(h.s2length, 16);

    let h2 = SumHead::for_file(701, 16, 30);
    assert_eq!(h2.count,     2);
    assert_eq!(h2.remainder, 1);

    let h3 = SumHead::for_file(0, 16, 30);
    assert_eq!(h3.count, 0);
}

#[test]
fn the_halves_of_a_rolling_checksum() {
    let mut rc = RollingChecksum::new();
    rc.init(&[1, 2, 3, 4]);
    assert_eq!(rc.s1_s2(), (10, 20));
}

#[test]
fn every_strong_sum_has_its_length() {
    for t in [ChecksumType::Md4Archaic, ChecksumType::Md4Busted, ChecksumType::Md4Old, ChecksumType::Md4, ChecksumType::Md5] {
        assert_eq!(StrongChecksum::compute(b"abc", t, 3, true).len(), 16);
    }
    assert_eq!(StrongChecksum::compute(b"abc", ChecksumType::NoSum, 3, true), vec![0]);
    assert_eq!(StrongChecksum::new(ChecksumType::Md4).ctype, ChecksumType::Md4);
}

#[test]
fn a_header_is_rounded_towards_zero() {
    let h = SumHead::for_file(1500, 16, 31);
    assert_eq!((h.count, h.remainder, h.s2length), (3, 100, 16));
    let h = SumHead::for_file(-1, 16, 31);
    assert_eq!((h.count, h.remainder), (0, -1));
    let h = SumHead::for_file(-1500, 16, 31);
    assert_eq!((h.count, h.remainder), (-1, -100));
}
