use rsync_rs::checksum::checksum1;
use rsync_rs::delta::match_blocks::{find_matches, read_sum_bufs, BlockHashTable, DeltaOp};
use rsync_rs::delta::token::{Token, TokenReader, TokenWriter};
use rsync_rs::io::bytes::{ByteReader, WireError};
use rsync_rs::io::varint::{write_int, write_ndx, NdxState};
use rsync_rs::pipeline::generator::{
    applies, apply_delta, compute_sum_bufs, generate_and_write_checksums, make_sum_head, FileStat,
    Generator, GeneratorStep,
};
use rsync_rs::pipeline::receiver::{apply_tokens, Receiver, ReceiverEvent};
use rsync_rs::pipeline::run::{ReceiveRun, RunAction, RunStage};
use rsync_rs::pipeline::sender::{Sender, SenderEvent};
use rsync_rs::protocol::constants::{CsumType, ITEM_XNAME_FOLLOWS, NDX_DONE};
use rsync_rs::protocol::types::{FileInfo, FileList, SumHead};

fn reader(bytes: &[u8]) -> ByteReader {
    ByteReader::new(bytes.to_vec())
}

fn make_head(count: i32, blength: i32, remainder: i32) -> SumHead {
    SumHead { count, blength, s2length: 16, remainder }
}

#[test]
fn apply_delta_all_literals() {
    let tokens = vec![Token::Literal(b"hello".to_vec()), Token::Literal(b" world".to_vec())];
    let basis = b"old content";
    let head = make_head(0, 700, 0);
    let result = apply_delta(&tokens, basis, &head);
    assert_eq!(result, b"hello world");
}

#[test]
fn apply_delta_all_matches() {
    let basis = b"abcdefgh";
    let head = make_head(2, 4, 0);
    let tokens = vec![Token::BlockMatch(1), Token::BlockMatch(0)];
    let result = apply_delta(&tokens, basis, &head);
    assert_eq!(result, b"efghabcd");
}

#[test]
fn apply_delta_mixed() {
    let basis = b"ABCDE";
    let head = make_head(2, 3, 2);
    let tokens = vec![
        Token::BlockMatch(0),  // "ABC"
        Token::Literal(b"XY".to_vec()),
        Token::BlockMatch(1),  // "DE"
    ];
    let result = apply_delta(&tokens, basis, &head);
    assert_eq!(result, b"ABCXYDE");
}

#[test]
fn apply_delta_empty_tokens() {
    let tokens: Vec<Token> = vec![];
    let result = apply_delta(&tokens, b"basis", &make_head(0, 700, 0));
    assert!(result.is_empty());
}

#[test]
fn apply_delta_block_out_of_bounds() {
    let basis = b"AB"; // only 2 bytes
    let head = make_head(1, 700, 0);
    let tokens = vec![Token::BlockMatch(0)];
    let result = apply_delta(&tokens, basis, &head);
    assert_eq!(result, b"AB");
}

fn make_file_info(name: &str, size: i64, modtime: i64) -> FileInfo {
    FileInfo { name: name.to_string(), size, modtime, ..Default::default() }
}

#[test]
fn needs_update_absent_file() {
    let fi = make_file_info("absent_file.txt", 10, 0);
    assert!(Generator::needs_update(&fi, None));
}

#[test]
fn needs_update_matching_file() {
    let content = b"hello world";
    let mtime = 1_700_000_000;
    let fi = make_file_info("match_test.txt", content.len() as i64, mtime);
    let found = FileStat { len: content.len() as u64, mtime };
    assert!(!Generator::needs_update(&fi, Some(found)));
}

#[test]
fn needs_update_size_mismatch() {
    let fi = make_file_info("size_mismatch.txt", 999, 0);
    let found = FileStat { len: 5, mtime: 0 };
    assert!(Generator::needs_update(&fi, Some(found)));
}

#[test]
fn apply_tokens_all_literals() {
    let tokens = vec![
        Token::Literal(b"hello".to_vec()),
        Token::Literal(b" world".to_vec()),
    ];
    let head = make_head(0, 700, 0);
    assert_eq!(apply_tokens(tokens, b"ignored", &head), b"hello world");
}

#[test]
fn apply_tokens_block_match() {
    let basis = b"abcdefgh";
    let head = make_head(2, 4, 0);
    let tokens = vec![Token::BlockMatch(1), Token::BlockMatch(0)];
    assert_eq!(apply_tokens(tokens, basis, &head), b"efghabcd");
}

#[test]
fn apply_tokens_mixed() {
    let basis = b"ABCDE";
    let head = make_head(2, 3, 2);
    let tokens = vec![
        Token::BlockMatch(0),
        Token::Literal(b"XY".to_vec()),
        Token::BlockMatch(1),
    ];
    assert_eq!(apply_tokens(tokens, basis, &head), b"ABCXYDE");
}

#[test]
fn apply_tokens_empty() {
    let head = make_head(0, 700, 0);
    assert!(apply_tokens(vec![], b"basis", &head).is_empty());
}

#[test]
fn receiver_token_roundtrip() {
    let mut tw = TokenWriter::new(Vec::new());
    tw.send_literal(b"foo");
    let wire: Vec<u8> = tw.finish();

    let head = make_head(0, 700, 0);
    let mut tr = TokenReader::new(ByteReader::new(wire));
    let mut tokens = Vec::new();
    while let Some(tok) = tr.read_token().unwrap() {
        tokens.push(tok);
    }
    assert_eq!(apply_tokens(tokens, b"", &head), b"foo");
}

#[test]
fn receiver_run_ndx_done_immediately() {
    let mut wire = Vec::new();
    write_int(&mut wire, NDX_DONE);

    let flist = FileList::new();
    let mut recv = Receiver::new(ByteReader::new(wire));
    let event = recv.run(&flist).unwrap();
    assert!(matches!(event, ReceiverEvent::Finished));
    assert_eq!(recv.stats.xferred_files, 0);
}

#[test]
fn make_sum_head_exact_multiple() {
    let head = make_sum_head(1400, 16);
    assert_eq!(head.blength, 700);
    assert_eq!(head.count, 2);
    assert_eq!(head.remainder, 0);
    assert_eq!(head.s2length, 16);
}

#[test]
fn make_sum_head_with_remainder() {
    let head = make_sum_head(1000, 16);
    assert_eq!(head.blength, 700);
    assert_eq!(head.count, 2);
    assert_eq!(head.remainder, 300);
    assert_eq!(head.s2length, 16);
}

#[test]
fn make_sum_head_empty_file() {
    let head = make_sum_head(0, 16);
    assert_eq!(head.count, 0);
}

#[test]
fn generate_checksums_round_trip() {
    let data = b"hello world 12345678"; // 20 bytes
    let blength = 10i32;
    let count = 2i32;
    let remainder = 0i32;
    let s2length = 16i32;
    let head = SumHead { count, blength, s2length, remainder };

    let mut buf = Vec::new();
    generate_and_write_checksums(&mut buf, data, &head, CsumType::Md5, 0, false);

    assert_eq!(buf.len(), count as usize * (4 + s2length as usize));

    let sums = read_sum_bufs(&mut reader(&buf), &head)
    .unwrap();
    assert_eq!(sums.len(), 2);
    assert_eq!(sums[0].sum1, checksum1(&data[..10]));
    assert_eq!(sums[1].sum1, checksum1(&data[10..20]));
}

#[test]
fn sender_ndx_done_immediately() {

    let mut input = Vec::new();
    let mut state = NdxState::new();
    for _ in 0..3 {
        write_ndx(&mut input, &mut state, NDX_DONE);
    }

    let output = Vec::new();
    let flist = FileList::new();

    let mut sender = Sender::new(ByteReader::new(input), output);
    let event = sender.run(&flist, 31).unwrap();
    assert!(matches!(event, SenderEvent::Finished));
    assert_eq!(sender.stats.xferred_files, 0);
}

#[test]
fn a_receiving_side_serves_every_file_in_turn() {
    let mut list = FileList::new();
    for (name, mode) in [("f", 0o100644), ("l", 0o120777), ("d", 0o040755), ("g", 0o100644), ("p", 0o010644)] {
        list.files.push(FileInfo { name: name.to_string(), mode, ..Default::default() });
    }
    let mut run = ReceiveRun::new(29);
    let mut seen = Vec::new();
    loop {
        match run.next(&list) {
            RunAction::Finish => break,
            RunAction::Part(_) => {}
            a => seen.push(a),
        }
    }
    assert_eq!(
        seen,
        vec![RunAction::MakeDir(2), RunAction::Check(0), RunAction::Check(3), RunAction::MakeLink(1)]
    );
    assert_eq!(run.stage, RunStage::Over);
    assert_eq!(run.next(&list), RunAction::Finish);
}

#[test]
fn a_generator_goes_through_the_list() {
    let mut list = FileList::new();
    list.files.push(FileInfo { name: "d".to_string(), mode: 0o040755, ..Default::default() });
    list.files.push(FileInfo { name: "f".to_string(), size: 3, modtime: 7, mode: 0o100644, ..Default::default() });
    let mut g = Generator::new(Vec::new());
    assert_eq!(g.run(&list, 0), GeneratorStep::Look(1));
    let same = Some(FileStat { len: 3, mtime: 7 });
    assert!(!g.take(&list, 1, same, Some(b"abc"), CsumType::Md5, false));
    assert!(g.writer.is_empty());
    assert!(g.take(&list, 1, None, None, CsumType::Md5, false));
    assert_eq!(g.writer.len(), 20);
    assert!(g.take(&list, 1, same, Some(b"abc"), CsumType::Md5, true));
    assert_eq!(g.writer[..20], g.writer[20..]);
    assert_eq!(g.run(&list, 2), GeneratorStep::Finished);
    assert_eq!(g.writer[40..], [0xff, 0xff, 0xff, 0xff]);
    assert_eq!(g.stats.num_files, 2);
}

#[test]
fn only_copies_of_blocks_need_a_sound_header() {
    let head = SumHead { count: 2, blength: -4, s2length: 16, remainder: 0 };
    let literal = vec![Token::Literal(b"abc".to_vec())];
    assert!(applies(&literal, &head));
    assert_eq!(apply_delta(&literal, b"basis", &head), b"abc");
    assert!(!applies(&[Token::BlockMatch(0)], &head));
    let head = SumHead { count: 2, blength: 2, s2length: 16, remainder: -1 };
    assert!(applies(&[Token::BlockMatch(0)], &head));
    assert!(!applies(&[Token::BlockMatch(1)], &head));
    let empty = SumHead { count: 0, blength: 0, s2length: -1, remainder: 0 };
    assert!(read_sum_bufs(&mut reader(&[]), &empty).unwrap().is_empty());
    assert_eq!(
        read_sum_bufs(&mut reader(&[]), &SumHead { count: 1, ..empty }).err(),
        Some(WireError::NegativeLength)
    );
}

#[test]
fn a_name_that_is_cut_off_at_the_end_counts_as_empty() {
    let flags = ITEM_XNAME_FOLLOWS as u16;
    let mut input = Vec::new();
    let mut state = NdxState::new();
    write_ndx(&mut input, &mut state, 5);
    input.extend_from_slice(&flags.to_le_bytes());
    input.extend_from_slice(&[9, b'n']);
    let list = FileList::new();
    let mut sender = Sender::new(ByteReader::new(input.clone()), Vec::new());
    assert_eq!(sender.run(&list, 31).err(), Some(WireError::UnexpectedEof));
    assert!(sender.take_output().is_empty());
    sender.on_eof(31);
    assert_eq!(sender.run(&list, 31).err(), Some(WireError::UnexpectedEof));
    let n = input.len() - 2;
    assert_eq!(sender.take_output(), [&input[..n], &[0]].concat());
}

#[test]
fn one_token_for_each_step_rebuilds_the_file() {
    let basis = b"aaaabbbbccccdd";
    let data = b"xxccccaaaayybbbbdd";
    let head = make_head(4, 4, 2);
    let sums = compute_sum_bufs(basis, &head, CsumType::Md5, 0, false);
    let table = BlockHashTable::build(&head, &sums);
    let mut tokens = Vec::new();
    let mut copied = 0;
    for op in find_matches(data, &table, 16) {
        match op {
            DeltaOp::Literal { offset, len } => {
                let from = offset as usize;
                tokens.push(Token::Literal(data[from..from + len as usize].to_vec()));
            }
            DeltaOp::Match { block_idx, .. } => {
                copied += 1;
                tokens.push(Token::BlockMatch(block_idx as i32));
            }
        }
    }
    assert_eq!(copied, 3);
    assert!(applies(&tokens, &head));
    assert_eq!(apply_delta(&tokens, basis, &head), data);
}

#[test]
fn written_checksums_stand_for_all_of_the_data() {
    let data: Vec<u8> = (0..1500u32).map(|i| (i % 251) as u8).collect();
    let head = make_sum_head(data.len() as i64, 16);
    assert_eq!((head.count, head.blength, head.remainder), (3, 700, 100));
    let mut wire = Vec::new();
    generate_and_write_checksums(&mut wire, &data, &head, CsumType::Md5, 7, true);
    assert_eq!(wire.len(), 3 * 20);
    let mut r = reader(&wire);
    let sums = read_sum_bufs(&mut r, &head).unwrap();
    assert_eq!(r.remaining(), 0);
    let mut joined = Vec::new();
    for (s, block) in sums.iter().zip(data.chunks(700)) {
        assert_eq!(s.sum1, checksum1(block));
        joined.extend_from_slice(block);
    }
    assert_eq!(joined, data);
}
