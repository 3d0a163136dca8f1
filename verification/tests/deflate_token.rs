use rsync_rs::delta::deflate_token::END_FLAG;
use rsync_rs::delta::{DeflatedTokenReader, DeflatedTokenWriter, Token};
use rsync_rs::io::bytes::{ByteReader, WireError};

fn drain_reader(mut tr: DeflatedTokenReader, basis_lookup: impl Fn(i32) -> Vec<u8>) -> Vec<Token> {
    let mut out = Vec::new();
    while let Some(tok) = tr.read_token().unwrap() {
        match &tok {
            Token::BlockMatch(idx) => {
                let block = basis_lookup(*idx);
                if !block.is_empty() {
                    tr.see_block(&block).unwrap();
                }
                out.push(tok);
            }
            Token::Literal(_) => out.push(tok),
        }
    }
    out
}

#[test]
fn empty_round_trip() {
    let w = DeflatedTokenWriter::new(Vec::new());
    let buf: Vec<u8> = w.finish().unwrap();
    assert_eq!(buf, vec![END_FLAG]);
    let tr = DeflatedTokenReader::new(ByteReader::new(buf));
    let toks = drain_reader(tr, |_| vec![]);
    assert!(toks.is_empty());
}

#[test]
fn small_literal_round_trip() {
    let payload = b"hello, world".to_vec();
    let mut w = DeflatedTokenWriter::new(Vec::new());
    w.send_literal(&payload);
    let buf: Vec<u8> = w.finish().unwrap();

    let tr = DeflatedTokenReader::new(ByteReader::new(buf));
    let toks = drain_reader(tr, |_| vec![]);
    let assembled: Vec<u8> = toks
        .iter()
        .filter_map(|t| if let Token::Literal(b) = t { Some(b.clone()) } else { None })
        .flatten()
        .collect();
    assert_eq!(assembled, payload);
}

#[test]
fn large_literal_multi_frame() {
    let mut payload = Vec::with_capacity(64 * 1024);
    let mut x: u32 = 0xdeadbeef;
    for _ in 0..64 * 1024 {
        x = x.wrapping_mul(1664525).wrapping_add(1013904223);
        payload.push((x >> 24) as u8);
    }
    let mut w = DeflatedTokenWriter::new(Vec::new());
    w.send_literal(&payload);
    let buf: Vec<u8> = w.finish().unwrap();

    let tr = DeflatedTokenReader::new(ByteReader::new(buf));
    let toks = drain_reader(tr, |_| vec![]);
    let assembled: Vec<u8> = toks
        .iter()
        .filter_map(|t| if let Token::Literal(b) = t { Some(b.clone()) } else { None })
        .flatten()
        .collect();
    assert_eq!(assembled, payload);
}

#[test]
fn match_then_literal_dict_sync() {
    let block_data = b"BLOCK_AAAAA".to_vec();
    let lit_a = b"prefix-".to_vec();
    let lit_b = b"-BLOCK_AAAAA-suffix".to_vec(); // contains the matched bytes

    let mut w = DeflatedTokenWriter::new(Vec::new());
    w.send_literal(&lit_a);
    w.send_block_match(0, &block_data).unwrap();
    w.send_literal(&lit_b);
    let buf: Vec<u8> = w.finish().unwrap();

    let mut tr = DeflatedTokenReader::new(ByteReader::new(buf));
    let mut got: Vec<Token> = Vec::new();
    while let Some(tok) = tr.read_token().unwrap() {
        match &tok {
            Token::BlockMatch(idx) => {
                assert_eq!(*idx, 0);
                tr.see_block(&block_data).unwrap();
                got.push(tok);
            }
            Token::Literal(_) => got.push(tok),
        }
    }
    let mut reconstructed = Vec::new();
    for t in &got {
        match t {
            Token::Literal(b) => reconstructed.extend_from_slice(b),
            Token::BlockMatch(_) => reconstructed.extend_from_slice(&block_data),
        }
    }
    let mut expected = Vec::new();
    expected.extend_from_slice(&lit_a);
    expected.extend_from_slice(&block_data);
    expected.extend_from_slice(&lit_b);
    assert_eq!(reconstructed, expected);
}

#[test]
fn consecutive_matches_run() {
    let blk = b"X".repeat(8);
    let mut w = DeflatedTokenWriter::new(Vec::new());
    for i in 5..=8 {
        w.send_block_match(i, &blk).unwrap();
    }
    let buf: Vec<u8> = w.finish().unwrap();

    let mut tr = DeflatedTokenReader::new(ByteReader::new(buf));
    let mut indices = Vec::new();
    while let Some(tok) = tr.read_token().unwrap() {
        if let Token::BlockMatch(i) = tok {
            indices.push(i);
            tr.see_block(&blk).unwrap();
        }
    }
    assert_eq!(indices, vec![5, 6, 7, 8]);
}

#[test]
fn nonconsecutive_matches_no_run() {
    let blk = b"X".repeat(4);
    let mut w = DeflatedTokenWriter::new(Vec::new());
    w.send_block_match(2, &blk).unwrap();
    w.send_block_match(10, &blk).unwrap();
    let buf: Vec<u8> = w.finish().unwrap();

    let mut tr = DeflatedTokenReader::new(ByteReader::new(buf));
    let mut indices = Vec::new();
    while let Some(tok) = tr.read_token().unwrap() {
        if let Token::BlockMatch(i) = tok {
            indices.push(i);
            tr.see_block(&blk).unwrap();
        }
    }
    assert_eq!(indices, vec![2, 10]);
}

#[test]
fn bytes_that_are_no_deflate_stream_are_refused() {
    let mut tr = DeflatedTokenReader::new(ByteReader::new(vec![0x40, 3, 0xff, 0xff, 0xff, 0x00]));
    assert_eq!(tr.read_token().err(), Some(WireError::InflateFailed));
}

#[test]
fn a_stream_that_is_cut_off_waits_for_more() {
    let mut w = DeflatedTokenWriter::new(Vec::new());
    w.send_literal(b"hello");
    let mut buf = w.finish().unwrap();
    assert!(buf.len() > 5);
    let end = buf.pop().unwrap();
    assert_eq!(end, END_FLAG);
    let mut tr = DeflatedTokenReader::new(ByteReader::new(buf));
    let mut got = Vec::new();
    loop {
        match tr.read_token() {
            Ok(Some(Token::Literal(d))) => got.extend_from_slice(&d),
            Ok(other) => panic!("{:?}", other),
            Err(e) => {
                assert_eq!(e, WireError::UnexpectedEof);
                break;
            }
        }
    }
    tr.feed(&[END_FLAG]);
    while let Some(tok) = tr.read_token().unwrap() {
        match tok {
            Token::Literal(d) => got.extend_from_slice(&d),
            other => panic!("{:?}", other),
        }
    }
    assert_eq!(got, b"hello");
}

#[test]
fn a_block_below_zero_is_written_as_it_stands() {
    let mut w = DeflatedTokenWriter::new(Vec::new());
    w.send_block_match(-5, b"").unwrap();
    w.send_block_match(-4, b"").unwrap();
    let buf = w.finish().unwrap();
    assert_eq!(buf, vec![0x21, 0xfb, 0xff, 0xff, 0xff, 1, 0, END_FLAG]);
}
