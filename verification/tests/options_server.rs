use rsync_rs::options_server::{parse_server_argv, parse_server_flags, ServerFlags};

#[test]
fn empty_input_yields_default() {
    assert_eq!(parse_server_flags(""), ServerFlags::default());
    assert_eq!(parse_server_flags("foo"), ServerFlags::default());
}

#[test]
fn archive_alone_expands_to_rlptgoD() {
    let f = parse_server_flags("-a");
    assert!(f.archive);
    assert!(f.recursive);
    assert!(f.links);
    assert!(f.perms);
    assert!(f.times);
    assert!(f.group);
    assert!(f.owner);
    assert!(f.devices);
    assert!(f.specials);
}

#[test]
fn av_token_sets_archive_and_verbose() {
    let f = parse_server_flags("-av");
    assert_eq!(f.verbose, 1);
    assert!(f.archive);
    assert!(f.owner && f.group && f.times && f.devices);
}

#[test]
fn explicit_letters_match_archive_expansion() {
    let f = parse_server_flags("-rlptgoD");
    assert!(f.recursive && f.links && f.perms && f.times);
    assert!(f.group && f.owner && f.devices && f.specials);
    assert!(!f.archive);
}

#[test]
fn vrt_token_keeps_owner_group_off() {
    let f = parse_server_flags("-vrt");
    assert_eq!(f.verbose, 1);
    assert!(f.recursive);
    assert!(f.times);
    assert!(!f.owner);
    assert!(!f.group);
    assert!(!f.devices);
}

#[test]
fn extension_tail_is_consumed_after_e() {
    let f = parse_server_flags("-vlogDtpre.iLsfxCIvu");
    assert_eq!(f.verbose, 1, "single leading 'v'");
    assert!(f.links && f.owner && f.group && f.devices);
    assert!(f.times && f.perms && f.recursive);
    assert_eq!(f.e_tail, ".iLsfxCIvu");
    assert!(!f.itemize, "i is in e-tail, not a top-level flag");
}

#[test]
fn unknown_chars_are_collected_not_dropped() {
    let f = parse_server_flags("-aZ?");
    assert!(f.archive);
    assert_eq!(f.unknown, "Z?");
}

#[test]
fn preserve_projection_matches_owner_group_times_devices() {
    let f = parse_server_flags("-a");
    let p = f.to_preserve();
    assert!(p.uid && p.gid && p.times && p.devices);

    let f = parse_server_flags("-vrt");
    let p = f.to_preserve();
    assert!(!p.uid && !p.gid && p.times && !p.devices);
}

#[test]
fn parse_server_argv_merges_multiple_tokens() {
    let argv: Vec<String> =
        ["--server", "-vlogDtpre.iLsfxCIvu", "--numeric-ids", ".", "/tmp/dst"]
            .iter()
            .map(|s| s.to_string())
            .collect();
    let (flags, paths) = parse_server_argv(&argv);
    assert!(flags.archive == false, "archive flag itself isn't on the wire");
    assert!(flags.owner && flags.group && flags.times && flags.devices);
    assert_eq!(paths, vec![".", "/tmp/dst"]);
}

#[test]
fn z_flag_sets_compress() {
    let f = parse_server_flags("-vz");
    assert!(f.compress);
    assert_eq!(f.verbose, 1);
    let f = parse_server_flags("-avz");
    assert!(f.compress && f.archive && f.verbose == 1);
}

#[test]
fn parse_server_argv_handles_separate_a_token() {
    let argv = ["--server", "-a", "."].map(String::from);
    let (flags, _) = parse_server_argv(&argv);
    assert!(flags.archive);
    assert!(flags.owner && flags.group && flags.times);
}
