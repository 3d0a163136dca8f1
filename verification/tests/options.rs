use rsync_rs::client::{client_preserve, daemon_request, far_end_args, plan_client, wants_delete, ClientPlan};
use rsync_rs::options::{Options, PathError};
use rsync_rs::options_server::{parse_server_argv, parse_server_flags};
use rsync_rs::server::{
    file_info_from_meta, join_rel, merge_options, session_checksum, source_paths, walk_action,
    FileMeta, WalkAction,
};
use rsync_rs::filter::FilterList;
use rsync_rs::protocol::constants::CsumType;

fn with_args(args: &[&str]) -> Options {
    let mut o = Options::default();
    o.args = args.iter().map(|s| s.to_string()).collect();
    o
}

#[test]
fn archive_stands_for_its_letters() {
    let mut o = Options::default();
    o.archive = true;
    o.expand_archive();
    assert!(o.recursive && o.links && o.perms && o.times && o.group && o.owner && o.devices && o.specials);
}

#[test]
fn the_last_path_is_the_destination() {
    let (src, dst) = with_args(&["a", "b", "c"]).parse_paths().unwrap();
    assert_eq!(src, vec!["a", "b"]);
    assert_eq!(dst, "c");
    assert_eq!(with_args(&["a"]).parse_paths(), Err(PathError::TooFewPaths(1)));
    assert_eq!(with_args(&[]).parse_paths(), Err(PathError::TooFewPaths(0)));
}

#[test]
fn remote_paths_are_taken_apart() {
    let r = Options::parse_remote_src("alice@host:/srv/data").unwrap();
    assert_eq!(r.user.as_deref(), Some("alice"));
    assert_eq!(r.host, "host");
    assert_eq!(r.path, "/srv/data");
    assert!(!r.is_daemon);
    let r = Options::parse_remote_dst("rsync://host:8873/mod/dir").unwrap();
    assert_eq!(r.host, "host");
    assert_eq!(r.port, Some(8873));
    assert_eq!(r.path, "mod/dir");
    assert!(r.is_daemon);
    assert!(Options::parse_remote_src("/local/path").is_none());
    assert!(with_args(&["a", "b"]).is_local());
    assert!(!with_args(&["a", "host:b"]).is_local());
}

#[test]
fn the_far_end_reads_what_it_is_sent() {
    let mut o = Options::default();
    o.verbose = 2;
    o.archive = true;
    o.checksum = true;
    o.compress = true;
    o.delete = true;
    o.expand_archive();
    let args = o.server_args();
    assert_eq!(args[0], "-vvacz");
    assert!(args.iter().any(|a| a == "--delete"));
    let (f, paths) = parse_server_argv(&args);
    assert_eq!(f.verbose, 2);
    assert!(f.archive && f.recursive && f.owner && f.checksum && f.compress && f.delete);
    assert!(!f.update && !f.dry_run && !f.hard_links);
    assert!(paths.is_empty());
}

#[test]
fn a_run_is_planned_by_its_paths() {
    let mut o = with_args(&["a", "b"]);
    assert!(plan_client(&o).is_ok());
    o.list_only = true;
    assert!(matches!(plan_client(&o), Ok(ClientPlan::List)));
    assert_eq!(plan_client(&with_args(&["a"])).err(), Some(PathError::TooFewPaths(1)));
}

#[test]
fn the_far_end_is_told_its_role() {
    let o = with_args(&["a", "host:b"]);
    let push = far_end_args(&o, true);
    let pull = far_end_args(&o, false);
    assert!(push.is_empty());
    assert_eq!(pull, ["--sender"]);
}

#[test]
fn a_daemon_is_asked_for_a_module() {
    let o = with_args(&["host::data/sub", "b"]);
    let (module, args) = daemon_request(&o, "data/sub", false).unwrap();
    assert_eq!(module, "data");
    assert_eq!(args, ["--sender", ".", "data/sub"]);
    assert!(daemon_request(&o, "", false).is_none());
}

#[test]
fn preserved_attributes_follow_the_options() {
    let mut o = Options::default();
    o.owner = true;
    o.times = true;
    let p = client_preserve(&o);
    assert!(p.uid && !p.gid && p.times);
    assert!(!wants_delete(&o));
    o.delete_after = true;
    assert!(wants_delete(&o));
}

#[test]
fn server_options_are_merged() {
    let mut o = Options::default();
    o.compress = true;
    o.verbose = 1;
    let g = merge_options(parse_server_flags("-vt"), &o);
    assert!(g.compress && g.times && !g.owner);
    assert_eq!(g.verbose, 2);
}

#[test]
fn sources_come_behind_the_dot() {
    let args: Vec<String> = [".", "/srv/a", "/srv/b"].iter().map(|s| s.to_string()).collect();
    let (base, sources) = source_paths(&args);
    assert_eq!((base.as_str(), sources), (".", vec!["/srv/a".to_string(), "/srv/b".to_string()]));
}

#[test]
fn the_checksum_of_a_session_follows_the_protocol() {
    assert_eq!(session_checksum(31, true), (CsumType::Md5, 16));
    assert_eq!(session_checksum(31, false), (CsumType::Md5, 0));
    assert_eq!(session_checksum(29, false).0, CsumType::Md4Old);
}

#[test]
fn walking_respects_the_filter() {
    let mut f = FilterList::new();
    f.add_exclude("*.o");
    assert_eq!(walk_action(&f, "a.o", false, false, true), WalkAction::Skip);
    assert_eq!(walk_action(&f, "a.c", false, false, true), WalkAction::Add);
    assert_eq!(walk_action(&f, "link", false, true, true), WalkAction::AddLink);
    assert_eq!(walk_action(&f, "dir", true, false, true), WalkAction::AddAndDescend);
    assert_eq!(join_rel("", "a"), "a");
    assert_eq!(join_rel("d", "a"), "d/a");
}

#[test]
fn file_facts_become_an_entry() {
    let m = FileMeta { len: 5, mtime: 9, mode: 0o100644, uid: 1, gid: 2, dev: 3, ino: 4 };
    let fi = file_info_from_meta("d/a.txt", &m);
    assert_eq!(fi.path(), "d/a.txt");
    assert_eq!(fi.name, "a.txt");
    assert_eq!(fi.dirname.as_deref(), Some("d"));
    assert_eq!((fi.size, fi.modtime, fi.mode, fi.uid, fi.gid), (5, 9, 0o100644, 1, 2));
}

#[test]
fn two_colons_lead_to_a_daemon() {
    let r = Options::parse_remote_dst("host::mod/dir").unwrap();
    assert!(r.is_daemon);
    assert_eq!((r.host.as_str(), r.path.as_str(), r.port), ("host", "mod/dir", None));
    let r = Options::parse_remote_src("alice@host::mod").unwrap();
    assert!(r.is_daemon);
    assert_eq!((r.user.as_deref(), r.path.as_str()), (Some("alice"), "mod"));
    assert!(!Options::parse_remote_src("host:a::b").unwrap().is_daemon);
}

#[test]
fn the_far_end_finds_no_path_among_its_options() {
    let mut o = Options::default();
    o.archive = true;
    o.exclude = vec!["*.o".to_string(), "-x".to_string()];
    o.max_delete = Some(-3);
    o.suffix = Some("~".to_string());
    let (f, paths) = parse_server_argv(&o.server_args());
    assert!(f.archive);
    assert!(paths.is_empty());
}

#[test]
fn flags_are_shown_with_quotes() {
    let f = parse_server_flags("-vZ?e.iL");
    let s = f.to_text();
    assert!(s.starts_with("ServerFlags { v=1 a=false"));
    assert!(s.ends_with("unknown=\"Z?\" e_tail=\".iL\" }"));
    let f = parse_server_flags("-\"e\\");
    assert!(f.to_text().ends_with("unknown=\"\\\"\" e_tail=\"\\\\\" }"));
}
