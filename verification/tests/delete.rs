use rsync_rs::delete::{count_deletion, delete_action, DeleteAction, KeepSet};
use rsync_rs::path::{file_name, has_trailing_slash, split_path, starts_path};
use rsync_rs::protocol::types::{FileInfo, FileList, Stats};

#[test]
fn listed_files_and_their_directories_are_kept() {
    let mut l = FileList::new();
    l.files.push(FileInfo {
        name: "c.txt".to_string(),
        dirname: Some("a/b".to_string()),
        ..Default::default()
    });
    let k = KeepSet::of_list(&l);
    assert!(k.keeps("a/b/c.txt"));
    assert!(k.keeps("a/b"));
    assert!(k.keeps("a"));
    assert!(!k.keeps("a/b/d.txt"));
    assert!(!k.keeps("b"));
}

#[test]
fn kept_paths_are_compared_by_component() {
    let mut k = KeepSet::new();
    k.keep("src/lib");
    assert!(k.keeps("src"));
    assert!(k.keeps("src/lib"));
    assert!(!k.keeps("sr"));
    assert!(!k.keeps("src/lib2"));
}

#[test]
fn what_is_not_kept_is_removed_by_its_kind() {
    assert_eq!(delete_action(true, false, false), DeleteAction::Keep);
    assert_eq!(delete_action(true, true, false), DeleteAction::Descend);
    assert_eq!(delete_action(false, true, false), DeleteAction::RemoveDir);
    assert_eq!(delete_action(false, false, true), DeleteAction::RemoveSymlink);
    assert_eq!(delete_action(false, false, false), DeleteAction::RemoveFile);
}

#[test]
fn deletions_are_counted_by_kind() {
    let mut s = Stats::default();
    count_deletion(&mut s, DeleteAction::RemoveDir);
    count_deletion(&mut s, DeleteAction::RemoveFile);
    count_deletion(&mut s, DeleteAction::RemoveFile);
    count_deletion(&mut s, DeleteAction::RemoveSymlink);
    count_deletion(&mut s, DeleteAction::Keep);
    assert_eq!(s.deleted_dirs, 1);
    assert_eq!(s.deleted_symlinks, 1);
}

#[test]
fn paths_are_taken_apart() {
    assert_eq!(split_path("a//b/"), vec!["a", "b"]);
    assert_eq!(file_name("a/b").as_deref(), Some("b"));
    assert_eq!(file_name("a/b/").as_deref(), Some("b"));
    assert_eq!(file_name("/"), None);
    assert!(has_trailing_slash("a/"));
    assert!(!has_trailing_slash("a"));
    assert!(starts_path(&split_path("a/b/c"), &split_path("a/b")) || starts_path(&split_path("a/b"), &split_path("a/b/c")));
}
