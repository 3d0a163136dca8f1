use rsync_rs::flist::recv::recv_file_entry;
use rsync_rs::flist::send::send_file_entry;
use rsync_rs::flist::sort::file_before;
use rsync_rs::flist::{
    flist_sort, recv_file_list, recv_file_list_ex, send_file_list, send_file_list_ex, Preserve,
};
use rsync_rs::io::bytes::{ByteReader, WireError};
use rsync_rs::protocol::types::{FileInfo, FileList};

fn reader(bytes: &[u8]) -> ByteReader {
    ByteReader::new(bytes.to_vec())
}

fn reg_file(path: &str, size: i64, modtime: i64) -> FileInfo {
    let (dirname, name) = if let Some(p) = path.rfind('/') {
        (Some(path[..p].to_string()), path[p + 1..].to_string())
    } else {
        (None, path.to_string())
    };
    FileInfo {
        name,
        dirname,
        size,
        modtime,
        mode: 0o100644,
        uid: 1000,
        gid: 1000,
        ..Default::default()
    }
}

#[test]
fn roundtrip_single_file() {
    let mut flist = FileList::new();
    flist.files.push(reg_file("hello.txt", 42, 1700000000));
    flist_sort(&mut flist);

    let mut buf = Vec::<u8>::new();
    send_file_list(&mut buf, &flist, 31, 0, 0);

    let got = recv_file_list(&mut reader(&buf), 31, 0).unwrap();
    assert_eq!(got.files.len(), 1);
    assert_eq!(got.files[0].path(), "hello.txt");
    assert_eq!(got.files[0].size, 42);
    assert_eq!(got.files[0].modtime, 1700000000);
    assert_eq!(got.files[0].mode, 0o100644);
    assert_eq!(got.files[0].uid, 1000);
    assert_eq!(got.files[0].gid, 1000);
}

#[test]
fn roundtrip_multiple_files() {
    let mut flist = FileList::new();
    flist.files.push(reg_file("a/b/c.txt", 100, 1000));
    flist.files.push(reg_file("a/b/d.txt", 200, 1001));
    flist.files.push(reg_file("a/e.txt", 300, 999));
    flist_sort(&mut flist);

    let mut buf = Vec::<u8>::new();
    send_file_list(&mut buf, &flist, 31, 0, 0);

    let got = recv_file_list(&mut reader(&buf), 31, 0).unwrap();
    assert_eq!(got.files.len(), 3);

    let sent_paths: Vec<String> = flist.sorted.iter()
        .map(|&i| flist.files[i].path())
        .collect();
    let recv_paths: Vec<String> = got.files.iter().map(|f| f.path()).collect();
    assert_eq!(sent_paths, recv_paths);
}

#[test]
fn roundtrip_symlink() {
    let mut flist = FileList::new();
    let mut fi = reg_file("link", 0, 1700000000);
    fi.mode = 0o120777;
    fi.link_target = Some("target".to_string());
    flist.files.push(fi);
    flist_sort(&mut flist);

    let mut buf = Vec::<u8>::new();
    send_file_list(&mut buf, &flist, 31, 0, 0);

    let got = recv_file_list(&mut reader(&buf), 31, 0).unwrap();
    assert_eq!(got.files[0].link_target.as_deref(), Some("target"));
}

#[test]
fn roundtrip_with_checksum() {
    let mut flist = FileList::new();
    let mut fi = reg_file("file.bin", 16, 1700000000);
    fi.checksum = Some(vec![0xDE, 0xAD, 0xBE, 0xEF, 0, 0, 0, 0, 0, 0, 0, 0, 0, 0, 0, 0]);
    flist.files.push(fi);
    flist_sort(&mut flist);

    let checksum_len = 16;
    let mut buf = Vec::<u8>::new();
    send_file_list(&mut buf, &flist, 31, checksum_len, 0);

    let got = recv_file_list(&mut reader(&buf), 31, checksum_len).unwrap();
    assert_eq!(
        got.files[0].checksum.as_deref(),
        Some(&[0xDE, 0xAD, 0xBE, 0xEF, 0u8, 0, 0, 0, 0, 0, 0, 0, 0, 0, 0, 0][..])
    );
}

#[test]
fn roundtrip_mod_nsec() {
    let mut flist = FileList::new();
    let mut fi = reg_file("nsec.txt", 0, 1700000000);
    fi.mod_nsec = 123_456_789;
    flist.files.push(fi);
    flist_sort(&mut flist);

    let mut buf = Vec::<u8>::new();
    send_file_list(&mut buf, &flist, 31, 0, 0);

    let got = recv_file_list(&mut reader(&buf), 31, 0).unwrap();
    assert_eq!(got.files[0].mod_nsec, 123_456_789);
}

fn make_file(path: &str, is_dir: bool) -> FileInfo {
    let mode = if is_dir { 0o040755 } else { 0o100644 };
    let (dirname, name) = if let Some(p) = path.rfind('/') {
        (Some(path[..p].to_string()), path[p + 1..].to_string())
    } else {
        (None, path.to_string())
    };
    FileInfo { name, dirname, mode, ..Default::default() }
}

#[test]
fn sort_basic_order() {
    let mut flist = FileList::new();
    flist.files.push(make_file("foo/bar", false));
    flist.files.push(make_file("foo", true));
    flist.files.push(make_file("aaa", false));
    flist_sort(&mut flist);

    let sorted_paths: Vec<String> = flist.sorted.iter()
        .map(|&i| flist.files[i].path())
        .collect();
    assert_eq!(sorted_paths, vec!["aaa", "foo", "foo/bar"]);
}

#[test]
fn sort_files_before_sibling_dirs() {
    let mut flist = FileList::new();
    flist.files.push(make_file("foo0", false));
    flist.files.push(make_file("foo/child", false));
    flist.files.push(make_file("foo", true));
    flist_sort(&mut flist);

    let paths: Vec<String> = flist.sorted.iter()
        .map(|&i| flist.files[i].path())
        .collect();
    assert_eq!(paths, vec!["foo0", "foo", "foo/child"]);
}

#[test]
fn sort_nested_tree_matches_c() {
    let mut flist = FileList::new();
    flist.files.push(make_file("Makefile", false));
    flist.files.push(make_file("docs", true));
    flist.files.push(make_file("docs/intro.md", false));
    flist.files.push(make_file("docs/api", true));
    flist.files.push(make_file("docs/api/index.md", false));
    flist.files.push(make_file("src", true));
    flist.files.push(make_file("src/main.c", false));
    flist.files.push(make_file("src/lib", true));
    flist.files.push(make_file("src/lib/util.c", false));
    flist.files.push(make_file("src/lib/util.h", false));
    flist_sort(&mut flist);
    let paths: Vec<String> = flist.sorted.iter()
        .map(|&i| flist.files[i].path()).collect();
    assert_eq!(paths, vec![
        "Makefile",
        "docs",
        "docs/intro.md",
        "docs/api",
        "docs/api/index.md",
        "src",
        "src/main.c",
        "src/lib",
        "src/lib/util.c",
        "src/lib/util.h",
    ]);
}

#[test]
fn files_sort_before_directories() {
    let f = make_file("zzz", false);
    let d = make_file("aaa", true);
    assert!(file_before(&f, &d));
    assert!(!file_before(&d, &f));
    assert!(!file_before(&f, &f));
}

#[test]
fn an_entry_is_read_on_its_own() {
    let mut buf = Vec::new();
    let keep = Preserve { uid: true, gid: true, times: true, devices: false };
    let f = reg_file("hello.txt", 42, 1700000000);
    send_file_entry(&mut buf, &f, None, 31, 0, keep, false);
    assert!(!buf.is_empty());
    assert_eq!(recv_file_entry(&mut reader(&[]), None, 31, 0).err(), Some(WireError::UnexpectedEof));
}

#[test]
fn lists_of_old_protocols_are_read_back() {
    for protocol in [27, 28, 29] {
        for io_error in [0, 1] {
            let mut list = FileList::new();
            list.files.push(FileInfo { name: "a".to_string(), size: 5, modtime: 1, mode: 0o100644, ..Default::default() });
            flist_sort(&mut list);
            let keep = Preserve { uid: true, gid: true, times: true, devices: true };
            let mut buf = Vec::new();
            send_file_list_ex(&mut buf, &list, protocol, 0, io_error, keep, 0);
            let mut r = reader(&buf);
            let got = recv_file_list_ex(&mut r, protocol, 0, true, true, 0).unwrap();
            assert_eq!(r.remaining(), 0);
            assert_eq!(got.files.len(), 1);
            assert_eq!(got.files[0].path(), "a");
            assert_eq!((got.files[0].size, got.files[0].modtime, got.files[0].mode), (5, 1, 0o100644));
        }
    }
}

#[test]
fn a_directory_sorts_before_all_below_it() {
    let d = make_file("a/b", true);
    assert!(file_before(&d, &make_file("a/b/c/d", false)));
    assert!(file_before(&d, &make_file("a/b/c", true)));
    let x = make_file("a/x", false);
    assert!(!file_before(&x, &make_file("a/x", false)));
    assert!(file_before(&x, &make_file("a/x", true)));
}
