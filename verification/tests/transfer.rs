use rsync_rs::delta::token::{Token, TokenWriter};
use rsync_rs::delta::match_blocks::write_sum_head;
use rsync_rs::flist::hardlinks::mark_hardlinks;
use rsync_rs::flist::{flist_sort, recv_file_list, recv_file_list_ex, send_file_list_ex, Preserve};
use rsync_rs::io::bytes::{ByteReader, WireError};
use rsync_rs::io::multiplex::{report_message, MplexReader, MplexWriter, MultiplexStream};
use rsync_rs::io::varint::{read_ndx, read_varint, read_vstring, write_int, write_ndx, write_varint30, write_vstring, read_varint30, NdxState};
use rsync_rs::log::{get_verbosity, log_line, set_verbosity, LogLevel, LogState};
use rsync_rs::options::Options;
use rsync_rs::pipeline::generator::{FileStat, Generator};
use rsync_rs::pipeline::items::{read_index, read_item, write_index, write_item, Item};
use rsync_rs::pipeline::local::{
    backup_path, dest_in_sync, dir_meta, file_meta, plan_source, treats_as_dir, CopyAction, EntryFacts, LinkMap,
    LocalReport, SourcePlan, SyncFacts,
};
use rsync_rs::pipeline::receiver::{
    goodbye_plan, report_line, GoodbyeStep, Receiver, ReceiveError, ReceiverEvent, ServerReceiver,
};
use rsync_rs::pipeline::sender::{Sender, SenderEvent};
use rsync_rs::pipeline::{csum_sum_len, csum_type_to_checksum_type};
use rsync_rs::checksum::{ChecksumType, StrongChecksum};
use rsync_rs::protocol::constants::{CsumType, MsgCode, ITEM_TRANSFER, NDX_DONE};
use rsync_rs::protocol::types::{FileInfo, FileList, SumHead};

fn file(path: &str, size: i64) -> FileInfo {
    FileInfo { name: path.to_string(), size, mode: 0o100644, modtime: 1_700_000_000, ..Default::default() }
}

fn one_file(size: i64) -> FileList {
    let mut l = FileList::new();
    l.files.push(file("a.txt", size));
    flist_sort(&mut l);
    l
}

fn noise(n: usize) -> Vec<u8> {
    let mut x: u32 = 12345;
    let mut v = Vec::new();
    for _ in 0..n {
        x = x.wrapping_mul(1664525).wrapping_add(1013904223);
        v.push((x >> 24) as u8);
    }
    v
}

fn transfer(basis: Option<&[u8]>, data: &[u8], use_zlib: bool) -> (Vec<u8>, Vec<u8>, usize) {
    let flist = one_file(data.len() as i64);
    let seed = 77;
    let mut rx = ServerReceiver::new(ByteReader::new(Vec::new()), Vec::new(), 31, CsumType::Md5, seed, use_zlib);
    rx.request(&flist, 0, basis);
    let mut tx = Sender::new(ByteReader::new(rx.take_output()), Vec::new()).with_compression(use_zlib);
    match tx.run(&flist, 31).unwrap() {
        SenderEvent::File(job) => {
            assert_eq!(job.path, "a.txt");
            tx.send_file(&job, data, seed).unwrap();
        }
        SenderEvent::Finished => panic!("no file was asked for"),
    }
    let answer = tx.take_output();
    rx.feed(&answer);
    let (got, sum) = rx.receive(basis.unwrap_or(&[])).unwrap();
    (got, sum, answer.len())
}

#[test]
fn a_new_file_survives_the_transfer() {
    let data = noise(5_000);
    for zlib in [false, true] {
        let (got, sum, _) = transfer(None, &data, zlib);
        assert_eq!(got, data);
        assert_eq!(sum, StrongChecksum::compute(&data, ChecksumType::Md5, 0, true));
    }
}

#[test]
fn a_changed_file_travels_as_a_difference() {
    let basis = noise(20_000);
    let mut data = basis.clone();
    data[9_000] ^= 0x55;
    data.extend_from_slice(b"and some more");
    for zlib in [false, true] {
        let (got, _, len) = transfer(Some(&basis), &data, zlib);
        assert_eq!(got, data);
        assert!(len < 4_000);
    }
}

#[test]
fn an_empty_file_survives_the_transfer() {
    for zlib in [false, true] {
        let (got, _, _) = transfer(None, &[], zlib);
        assert!(got.is_empty());
    }
}

#[test]
fn a_sender_waits_for_more() {
    let mut input = Vec::new();
    let mut st = NdxState::new();
    write_ndx(&mut input, &mut st, NDX_DONE);
    let mut tx = Sender::new(ByteReader::new(input), Vec::new());
    let flist = FileList::new();
    assert!(matches!(tx.run(&flist, 31), Err(WireError::UnexpectedEof)));
    let mut more = Vec::new();
    write_ndx(&mut more, &mut st, NDX_DONE);
    write_ndx(&mut more, &mut st, NDX_DONE);
    tx.feed(&more);
    assert!(matches!(tx.run(&flist, 31), Ok(SenderEvent::Finished)));
    assert_eq!(tx.take_output(), vec![0, 0, 0]);
}

#[test]
fn a_receiver_rebuilds_a_file() {
    let flist = one_file(8);
    let mut wire = Vec::new();
    write_int(&mut wire, 0);
    write_sum_head(&mut wire, &SumHead { count: 2, blength: 4, remainder: 0, s2length: 16 });
    let mut tw = TokenWriter::new(wire);
    tw.send_block_match(1);
    tw.send_literal(b"abcd");
    let mut wire = tw.finish();
    write_int(&mut wire, NDX_DONE);
    let mut rx = Receiver::new(ByteReader::new(wire));
    match rx.run(&flist).unwrap() {
        ReceiverEvent::File(a) => {
            assert_eq!(a.ndx, 0);
            assert!(matches!(a.tokens[0], Token::BlockMatch(1)));
            let got = rx.rebuild(&flist.files[0], a, b"11112222").unwrap();
            assert_eq!(got, b"2222abcd");
        }
        ReceiverEvent::Finished => panic!("no file"),
    }
    assert!(matches!(rx.run(&flist), Ok(ReceiverEvent::Finished)));
    assert_eq!(rx.stats.xferred_files, 1);
}

#[test]
fn a_receiver_refuses_an_unknown_file() {
    let mut wire = Vec::new();
    write_int(&mut wire, 9);
    let mut rx = Receiver::new(ByteReader::new(wire));
    assert!(matches!(rx.run(&one_file(1)), Err(ReceiveError::BadIndex(9))));
    let mut rx = Receiver::new(ByteReader::new(vec![0]));
    assert!(matches!(rx.run(&one_file(1)), Err(ReceiveError::Wire(WireError::UnexpectedEof))));
}

#[test]
fn a_generator_asks_for_what_is_out_of_date() {
    let flist = one_file(5);
    let fi = &flist.files[0];
    let same = FileStat { len: 5, mtime: 1_700_000_000 };
    assert!(!Generator::wants(fi, Some(same), false));
    assert!(Generator::wants(fi, None, false));
    let mut g = Generator::new(Vec::new());
    g.request(&flist, 0, Some(b"hello"), CsumType::Md5);
    g.finish();
    assert!(!g.writer.is_empty());
}

#[test]
fn parting_takes_its_steps() {
    assert_eq!(goodbye_plan(31).iter().filter(|s| matches!(s, GoodbyeStep::TryRead)).count(), 1);
    assert!(goodbye_plan(31).len() > goodbye_plan(30).len());
    assert_eq!(report_line(&file("a.txt", 1), false), ">f+++++++++ a.txt");
    assert_eq!(report_line(&file("a.txt", 1), true), ">f.st...... a.txt");
}

#[test]
fn items_are_read_back() {
    let mut st = NdxState::new();
    let mut wire = Vec::new();
    write_index(&mut wire, &mut st, 31, 300);
    let item = Item { iflags: ITEM_TRANSFER, basis_type: 0, xname: String::new() };
    write_item(&mut wire, 31, &item).unwrap();
    let mut r = ByteReader::new(wire);
    let mut other = NdxState::new();
    assert_eq!(read_index(&mut r, &mut other, 31), Ok(300));
    assert_eq!(read_item(&mut r, 31).unwrap().iflags, ITEM_TRANSFER);
    assert_eq!(r.remaining(), 0);
}

#[test]
fn indices_are_read_back_in_turn() {
    let mut w = NdxState::new();
    let mut r = NdxState::new();
    let mut wire = Vec::new();
    let list = [0, 1, 255, 300, 40_000, 39_999, NDX_DONE, -2, -101, i32::MAX];
    for ndx in list {
        write_ndx(&mut wire, &mut w, ndx);
    }
    let mut input = ByteReader::new(wire);
    for ndx in list {
        assert_eq!(read_ndx(&mut input, &mut r), Ok(ndx));
    }
}

#[test]
fn numbers_that_do_not_fit_are_refused() {
    let mut r = ByteReader::new(vec![0xff; 9]);
    assert_eq!(read_varint(&mut r), Err(WireError::IntegerOverflow));
    let mut wire = Vec::new();
    write_varint30(&mut wire, 12_345);
    assert_eq!(read_varint30(&mut ByteReader::new(wire)), Ok(12_345));
}

#[test]
fn strings_are_read_back() {
    let mut wire = Vec::new();
    let long = "x".repeat(200);
    write_vstring(&mut wire, "\u{e9}t\u{e9}").unwrap();
    write_vstring(&mut wire, &long).unwrap();
    let mut r = ByteReader::new(wire);
    assert_eq!(read_vstring(&mut r).unwrap(), "\u{e9}t\u{e9}");
    assert_eq!(read_vstring(&mut r).unwrap(), long);
    assert_eq!(write_vstring(&mut Vec::new(), &"x".repeat(0x8000)), Err(WireError::StringTooLong));
    assert_eq!(read_vstring(&mut ByteReader::new(vec![2, 0xff, b'a'])).unwrap(), "\u{fffd}a");
}

#[test]
fn frames_with_unknown_tags_are_refused() {
    let mut s = MultiplexStream::new(ByteReader::new(vec![1, 0, 0, 6, 9]), Vec::new());
    s.start_multiplex_in();
    assert_eq!(s.read_data(1), Err(WireError::BadTag));
    let mut s = MultiplexStream::new(ByteReader::new(vec![1, 0, 0, 7 + 70, 9]), Vec::new());
    s.start_multiplex_in();
    assert_eq!(s.read_data(1), Err(WireError::UnknownMessage));
    let mut s = MultiplexStream::new(ByteReader::new(Vec::new()), Vec::new());
    assert_eq!(s.write_msg(MsgCode::Info, &vec![0; 0x100_0000]), Err(WireError::MessageTooLong));
}

#[test]
fn framed_data_is_read_back() {
    let mut w = MplexWriter::new(Vec::new());
    w.enable();
    w.write_all(b"hello ");
    w.write_msg(MsgCode::Warning, b"careful");
    w.write_all(b"world");
    let mut r = MplexReader::new(ByteReader::new(Vec::new()));
    r.enable();
    r.feed(&w.flush());
    let mut got = Vec::new();
    while got.len() < 11 {
        got.extend_from_slice(&r.read(100).unwrap());
    }
    assert_eq!(got, b"hello world");
    let seen = r.take_messages();
    assert_eq!(seen.len(), 1);
    assert_eq!(seen[0].text, "careful");
    assert_eq!(report_message(&seen[0]).0, LogLevel::Warning);
}

#[test]
fn file_lists_with_bad_entries_are_refused() {
    let mut wire = Vec::new();
    send_file_list_ex(
        &mut wire,
        &one_file(1),
        31,
        0,
        0,
        Preserve { uid: false, gid: false, times: true, devices: false },
        0,
    );
    let got = recv_file_list_ex(&mut ByteReader::new(wire.clone()), 31, 0, false, false, 0).unwrap();
    assert_eq!(got.files[0].path(), "a.txt");
    wire.truncate(4);
    assert_eq!(
        recv_file_list_ex(&mut ByteReader::new(wire), 31, 0, false, false, 0).err(),
        Some(WireError::UnexpectedEof)
    );
    assert!(recv_file_list(&mut ByteReader::new(vec![0x20, 5, 3]), 31, 0).is_err());
}

#[test]
fn second_names_are_marked() {
    let mut l = FileList::new();
    for name in ["a", "b", "c"] {
        let mut f = file(name, 1);
        f.dev = 1;
        f.ino = if name == "b" { 2 } else { 1 };
        l.files.push(f);
    }
    flist_sort(&mut l);
    mark_hardlinks(&mut l, true);
    assert_eq!(l.files[0].hard_link_first_ndx, -1);
    assert_eq!(l.files[1].hard_link_first_ndx, -1);
    assert_eq!(l.files[2].hard_link_first_ndx, 0);
}

#[test]
fn a_second_name_is_linked() {
    let mut o = Options::default();
    o.hard_links = true;
    let f = EntryFacts { is_file: true, is_symlink: false, links: 2, dev: 1, ino: 9, len: 5, in_sync: false };
    let mut m = LinkMap::new();
    let a = m.copy_action(&o, &f, "dst/a");
    assert!(matches!(a, CopyAction::Regular));
    let mut report = LocalReport::default();
    report.note(&a, "dst/a", 5);
    let b = m.copy_action(&o, &f, "dst/b");
    match &b {
        CopyAction::HardLink(first) => assert_eq!(first, "dst/a"),
        other => panic!("{:?}", other),
    }
    report.note(&b, "dst/b", 5);
    assert_eq!(report.xferred, ["dst/a"]);
    assert_eq!(report.hardlinked, ["dst/b"]);
}

#[test]
fn sources_are_planned_by_their_slash() {
    assert!(matches!(plan_source("x/src/", true, true, true), SourcePlan::Dir(None)));
    match plan_source("x/src", true, true, true) {
        SourcePlan::Dir(Some(name)) => assert_eq!(name, "src"),
        other => panic!("{:?}", other),
    }
    assert!(matches!(plan_source("x/src", true, false, true), SourcePlan::SkipDir(_)));
    match plan_source("x/a.txt", false, true, true) {
        SourcePlan::File { name, into_dir } => assert_eq!((name.as_str(), into_dir), ("a.txt", true)),
        other => panic!("{:?}", other),
    }
    assert!(treats_as_dir("dst/", 1, false));
    assert!(treats_as_dir("dst", 2, false));
    assert!(treats_as_dir("dst", 1, true));
    assert!(!treats_as_dir("dst", 1, false));
}

#[test]
fn equal_size_and_time_mean_in_sync() {
    let f = SyncFacts { is_dir: false, is_file: true, len: 5, mtime: Some((7, 0)) };
    let g = SyncFacts { is_dir: false, is_file: true, len: 5, mtime: Some((7, 0)) };
    let h = SyncFacts { is_dir: false, is_file: true, len: 6, mtime: Some((7, 0)) };
    assert!(dest_in_sync(Some(f), g));
    let g = SyncFacts { is_dir: false, is_file: true, len: 5, mtime: Some((7, 0)) };
    assert!(!dest_in_sync(Some(h), g));
    let g = SyncFacts { is_dir: false, is_file: true, len: 5, mtime: Some((7, 0)) };
    assert!(!dest_in_sync(None, g));
    let mut o = Options::default();
    o.times = true;
    o.perms = true;
    assert!(file_meta(&o).times && file_meta(&o).perms && !file_meta(&o).owner);
    assert!(dir_meta(&o).perms);
}

#[test]
fn sums_are_chosen_by_name() {
    assert_eq!(csum_type_to_checksum_type(CsumType::Md5), ChecksumType::Md5);
    assert_eq!(csum_type_to_checksum_type(CsumType::Md4Old), ChecksumType::Md4Old);
    assert_eq!(csum_sum_len(CsumType::Md5), 16);
}

#[test]
fn messages_are_shown_by_verbosity() {
    let mut st = LogState::new();
    assert_eq!(get_verbosity(&st), 0);
    assert_eq!(log_line(&st, LogLevel::Debug, "x"), None);
    set_verbosity(&mut st, 3);
    assert!(log_line(&st, LogLevel::Debug, "x").is_some());
    assert!(log_line(&LogState::new(), LogLevel::Error, "x").is_some());
}

#[test]
fn older_versions_are_kept_where_they_are_asked_for() {
    let mut o = Options::default();
    assert_eq!(backup_path(&o, "dst/a", "a"), None);
    o.backup = true;
    assert_eq!(backup_path(&o, "dst/a", "a").as_deref(), Some("dst/a~"));
    o.suffix = Some(".old".to_string());
    assert_eq!(backup_path(&o, "dst/a", "a").as_deref(), Some("dst/a.old"));
    o.suffix = None;
    o.backup_dir = Some("bak".to_string());
    assert_eq!(backup_path(&o, "dst/x/a", "x/a").as_deref(), Some("bak/x/a"));
}

#[test]
fn only_what_is_counted_needs_room() {
    let mut report = LocalReport::default();
    report.stats.xferred_files = i32::MAX;
    report.note(&CopyAction::UpToDate, "a", u64::MAX);
    report.note(&CopyAction::Skip, "b", u64::MAX);
    assert!(report.xferred.is_empty());
    report.stats.xferred_files = 0;
    report.stats.total_size = i64::MAX;
    report.note(&CopyAction::Symlink, "c", 1);
    assert_eq!(report.xferred, ["c"]);
    assert_eq!((report.stats.total_size, report.stats.xferred_files), (i64::MAX, 1));
}

#[test]
fn marking_hard_links_leaves_the_rest_of_a_list() {
    let mut l = FileList::new();
    for name in ["a", "b"] {
        let mut f = file(name, 1);
        f.dev = 1;
        f.ino = 9;
        l.files.push(f);
    }
    flist_sort(&mut l);
    l.ndx_start = -1;
    l.flist_num = 3;
    l.parent_ndx = 4;
    l.in_progress = true;
    l.to_redo = true;
    mark_hardlinks(&mut l, true);
    assert_eq!((l.ndx_start, l.flist_num, l.parent_ndx), (-1, 3, 4));
    assert!(l.in_progress && l.to_redo);
    assert_eq!(l.files[1].hard_link_first_ndx, -1);
}
