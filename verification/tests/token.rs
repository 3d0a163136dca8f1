use rsync_rs::delta::token::{Token, TokenReader, TokenWriter};
use rsync_rs::io::bytes::ByteReader;
use rsync_rs::protocol::constants::CHUNK_SIZE;

fn round_trip(ops: Vec<(&[u8], Option<i32>)>) -> Vec<Token> {
    let mut writer = TokenWriter::new(Vec::new());
    for (data, blk) in ops {
        if !data.is_empty() {
            writer.send_literal(data);
        }
        if let Some(idx) = blk {
            writer.send_block_match(idx);
        }
    }
    let buf: Vec<u8> = writer.finish();

    let mut tokens = Vec::new();
    let mut reader = TokenReader::new(ByteReader::new(buf));
    while let Some(tok) = reader.read_token().unwrap() {
        tokens.push(tok);
    }
    tokens
}

#[test]
fn eof_only() {
    let tokens = round_trip(vec![]);
    assert!(tokens.is_empty());
}

#[test]
fn literal_round_trip() {
    let payload = b"hello, world";
    let tokens = round_trip(vec![(payload, None)]);
    assert_eq!(tokens.len(), 1);
    match &tokens[0] {
        Token::Literal(data) => assert_eq!(data.as_slice(), payload),
        _ => panic!("expected Literal"),
    }
}

#[test]
fn block_match_round_trip() {
    let tokens = round_trip(vec![(b"", Some(0)), (b"", Some(7))]);
    assert!(matches!(&tokens[0], Token::BlockMatch(0)));
    assert!(matches!(&tokens[1], Token::BlockMatch(7)));
}

#[test]
fn mixed_round_trip() {
    let tokens = round_trip(vec![(b"abc", None), (b"", Some(2)), (b"xyz", None)]);
    assert_eq!(tokens.len(), 3);
    match &tokens[0] {
        Token::Literal(d) => assert_eq!(d.as_slice(), b"abc"),
        _ => panic!(),
    }
    assert!(matches!(&tokens[1], Token::BlockMatch(2)));
    match &tokens[2] {
        Token::Literal(d) => assert_eq!(d.as_slice(), b"xyz"),
        _ => panic!(),
    }
}

#[test]
fn large_literal_chunking() {
    let payload: Vec<u8> = (0u8..=255).cycle().take(CHUNK_SIZE + 100).collect();
    let mut writer = TokenWriter::new(Vec::new());
    writer.send_literal(&payload);
    let buf: Vec<u8> = writer.finish();

    let mut assembled = Vec::new();
    let mut reader = TokenReader::new(ByteReader::new(buf));
    while let Some(tok) = reader.read_token().unwrap() {
        match tok {
            Token::Literal(d) => assembled.extend_from_slice(&d),
            _ => panic!("unexpected block match"),
        }
    }
    assert_eq!(assembled, payload);
}
