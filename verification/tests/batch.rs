use rsync_rs::batch::{
    apply_stream_flags, shell_quote, stream_flags, write_shell_script, BatchError, BatchReader,
    BatchWriter, BFLAG_LINKS, BFLAG_RECURSE,
};
use rsync_rs::flist::flist_sort;
use rsync_rs::io::bytes::WireError;
use rsync_rs::options::Options;
use rsync_rs::protocol::types::{FileInfo, FileList};

fn archive() -> Options {
    let mut o = Options::default();
    o.archive = true;
    o.expand_archive();
    o
}

fn list() -> FileList {
    let mut l = FileList::new();
    l.files.push(FileInfo {
        name: "a.txt".to_string(),
        size: 5,
        modtime: 1_700_000_000,
        mode: 0o100644,
        uid: 7,
        gid: 8,
        ..Default::default()
    });
    flist_sort(&mut l);
    l
}

#[test]
fn a_batch_is_read_back() {
    let opts = archive();
    let mut w = BatchWriter::create(&opts);
    w.write_flist(&list(), true, true);
    w.write_file(0, b"hello");
    w.finish();
    let mut r = BatchReader::open(w.into_bytes()).unwrap();
    assert_eq!(r.stream_flags, stream_flags(&opts));
    let got = r.read_flist().unwrap();
    assert_eq!(got.files.len(), 1);
    assert_eq!(got.files[0].path(), "a.txt");
    assert_eq!(got.files[0].size, 5);
    let (ndx, content) = r.read_record().unwrap().unwrap();
    assert_eq!(ndx, 0);
    assert_eq!(content, b"hello");
    assert!(r.read_record().unwrap().is_none());
}

#[test]
fn a_file_that_is_no_batch_is_refused() {
    assert!(matches!(BatchReader::open(b"not a batch file, this".to_vec()), Err(BatchError::NotABatch)));
}

#[test]
fn a_batch_that_is_cut_off_is_refused() {
    let mut bytes = BatchWriter::create(&archive()).into_bytes();
    bytes.pop();
    assert!(matches!(
        BatchReader::open(bytes),
        Err(BatchError::Wire(WireError::UnexpectedEof))
    ));
}

#[test]
fn an_unknown_record_is_refused() {
    let mut bytes = BatchWriter::create(&archive()).into_bytes();
    bytes.push(0x7e);
    let mut r = BatchReader::open(bytes).unwrap();
    assert!(matches!(r.read_record(), Err(BatchError::UnknownTag(0x7e))));
}

#[test]
fn option_bits_survive() {
    let mut o = Options::default();
    o.recursive = true;
    o.links = true;
    assert_eq!(stream_flags(&o), BFLAG_RECURSE | BFLAG_LINKS);
    let mut other = Options::default();
    apply_stream_flags(stream_flags(&o), &mut other);
    assert!(other.recursive && other.links);
    assert!(!other.owner && !other.checksum);
}

#[test]
fn words_are_quoted_where_they_need_it() {
    assert_eq!(shell_quote("plain-1.txt"), "plain-1.txt");
    assert_eq!(shell_quote("two words"), "'two words'");
    assert_eq!(shell_quote("it's"), "'it'\\''s'");
    assert_eq!(shell_quote("\u{e9}t\u{e9}"), "\u{e9}t\u{e9}");
}

#[test]
fn the_script_reads_the_batch() {
    let s = write_shell_script("my batch", &archive());
    assert_eq!(
        s,
        "#!/bin/sh\n# rsync-rs batch script \u{2014} replay with: sh my batch.sh [DEST]\n\nrsync-rs -a --read-batch='my batch' \"${1:-DEST}\"\n"
    );
}

#[test]
fn a_list_is_read_back_with_or_without_owners() {
    for (uid, gid) in [(false, false), (true, false), (false, true), (true, true)] {
        let mut w = BatchWriter::create(&archive());
        w.write_flist(&list(), uid, gid);
        w.write_file(0, b"x");
        w.write_file(0, b"");
        w.finish();
        let mut r = BatchReader::open(w.into_bytes()).unwrap();
        let got = r.read_flist().unwrap();
        assert_eq!(got.files.len(), 1);
        let f = &got.files[0];
        assert_eq!((f.path().as_str(), f.size, f.modtime), ("a.txt", 5, 1_700_000_000));
        assert_eq!(f.uid, if uid { 7 } else { 0 });
        assert_eq!(f.gid, if gid { 8 } else { 0 });
        assert_eq!(r.read_record().unwrap().unwrap(), (0, b"x".to_vec()));
        assert_eq!(r.read_record().unwrap().unwrap(), (0, Vec::new()));
        assert!(r.read_record().unwrap().is_none());
    }
}
