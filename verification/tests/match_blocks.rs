use md5::{Digest, Md5};
use rsync_rs::checksum::checksum1;
use rsync_rs::delta::match_blocks::{find_matches, read_sum_bufs, read_sum_head, write_sum_bufs, write_sum_head, BlockHashTable, DeltaOp};
use rsync_rs::io::bytes::ByteReader;
use rsync_rs::protocol::types::{SumBuf, SumHead};

fn reader(bytes: &[u8]) -> ByteReader {
    ByteReader::new(bytes.to_vec())
}

fn make_head(count: i32, blength: i32, remainder: i32, s2length: i32) -> SumHead {
    SumHead { count, blength, remainder, s2length }
}

fn md5_of(data: &[u8]) -> Vec<u8> {
    let mut h = Md5::new();
    h.update(data);
    h.finalize().to_vec()
}

#[test]
fn sum_head_round_trip() {
    let head = make_head(10, 700, 300, 16);
    let mut buf = Vec::new();
    write_sum_head(&mut buf, &head);
    assert_eq!(buf.len(), 16); // 4 × i32
    let got = read_sum_head(&mut reader(&buf)).unwrap();
    assert_eq!(got.count, head.count);
    assert_eq!(got.blength, head.blength);
    assert_eq!(got.remainder, head.remainder);
    assert_eq!(got.s2length, head.s2length);
}

#[test]
fn sum_bufs_round_trip() {
    let head = make_head(2, 4, 3, 16);
    let _data = b"hello world";
    let sums = vec![
        SumBuf {
            offset: 0,
            len: 4,
            sum1: checksum1(b"hell"),
            chain: -1,
            flags: 0,
            sum2: md5_of(b"hell"),
        },
        SumBuf {
            offset: 4,
            len: 4,
            sum1: checksum1(b"o wo"),
            chain: -1,
            flags: 0,
            sum2: md5_of(b"o wo"),
        },
    ];

    let mut buf = Vec::new();
    write_sum_bufs(&mut buf, &sums);

    let got = read_sum_bufs(&mut reader(&buf), &head).unwrap();
    assert_eq!(got.len(), 2);
    assert_eq!(got[0].sum1, sums[0].sum1);
    assert_eq!(got[0].sum2, sums[0].sum2);
    assert_eq!(got[1].sum1, sums[1].sum1);
}

#[test]
fn find_matches_identical_data() {
    let data = b"abcdabcdabcd"; // 12 bytes
    let blength = 4i32;
    let s2len = 16usize;

    let count = data.len() / blength as usize;
    let head = make_head(count as i32, blength, 0, s2len as i32);

    let sums: Vec<SumBuf> = (0..count)
        .map(|i| {
            let block = &data[i * blength as usize..(i + 1) * blength as usize];
            SumBuf {
                offset: (i * blength as usize) as i64,
                len: blength,
                sum1: checksum1(block),
                chain: -1,
                flags: 0,
                sum2: md5_of(block),
            }
        })
        .collect();

    let table = BlockHashTable::build(&head, &sums);
    let ops = find_matches(data, &table, s2len);

    let matches: Vec<_> = ops.iter().filter(|o| matches!(o, DeltaOp::Match { .. })).collect();
    assert_eq!(matches.len(), count, "all blocks should match; got {:?}", ops);
    let literals: Vec<_> = ops.iter().filter(|o| matches!(o, DeltaOp::Literal { .. })).collect();
    assert!(literals.is_empty(), "no literals expected; got {:?}", ops);
}

#[test]
fn find_matches_no_blocks() {
    let data = b"hello world";
    let head = make_head(0, 700, 0, 16);
    let table = BlockHashTable::build(&head, &[]);
    let ops = find_matches(data, &table, 16);
    assert_eq!(ops.len(), 1);
    assert!(matches!(ops[0], DeltaOp::Literal { offset: 0, len: 11 }));
}

#[test]
fn find_matches_partial() {
    let data = b"hello world";
    let blength = 5i32;
    let block = &data[..blength as usize];
    let head = make_head(1, blength, 0, 16);
    let sums = vec![SumBuf {
        offset: 0,
        len: blength,
        sum1: checksum1(block),
        chain: -1,
        flags: 0,
        sum2: md5_of(block),
    }];
    let table = BlockHashTable::build(&head, &sums);
    let ops = find_matches(data, &table, 16);

    let has_match = ops.iter().any(|o| matches!(o, DeltaOp::Match { block_idx: 0, .. }));
    assert!(has_match, "expected a match; got {:?}", ops);
    let total_literal: u32 = ops
        .iter()
        .filter_map(|o| if let DeltaOp::Literal { len, .. } = o { Some(*len) } else { None })
        .sum();
    assert_eq!(total_literal, (data.len() - blength as usize) as u32);
}
