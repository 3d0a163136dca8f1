use rsync_rs::daemon::{
    admit_client, listen_on, listing_text, parse_bool, parse_config_str, ArgReader, ConfigError,
    ServerAction, Session, DAEMON_PORT,
};
use rsync_rs::options::Options;
use rsync_rs::transport::daemon::write_argv;

#[test]
fn parse_minimal() {
    let s = r#"
# global comment
motd file = /etc/motd

[data]
path = /srv/data
comment = Public data
read only = yes

[private]
path = /srv/private
list = no
"#;
    let cfg = parse_config_str(s).unwrap();
    assert_eq!(cfg.modules.len(), 2);
    assert_eq!(cfg.motd_file, Some("/etc/motd".to_string()));
    let data = cfg.find("data").unwrap();
    assert_eq!(data.path, "/srv/data".to_string());
    assert_eq!(data.comment, "Public data");
    assert!(data.read_only);
    assert!(data.list);
    let priv_ = cfg.find("private").unwrap();
    assert!(!priv_.list);
}

#[test]
fn parse_missing_path_errors() {
    let s = "[bad]\ncomment = nopath\n";
    assert!(parse_config_str(s).is_err());
}

#[test]
fn parse_bool_variants() {
    assert!(parse_bool("yes"));
    assert!(parse_bool("YES"));
    assert!(parse_bool("true"));
    assert!(parse_bool("1"));
    assert!(parse_bool("on"));
    assert!(!parse_bool("no"));
    assert!(!parse_bool("false"));
    assert!(!parse_bool(""));
}

#[test]
fn parse_globals() {
    let s = "port = 1234\naddress = 127.0.0.1\n[m]\npath = /tmp\n";
    let cfg = parse_config_str(s).unwrap();
    assert_eq!(cfg.port, Some(1234));
    assert_eq!(cfg.address.as_deref(), Some("127.0.0.1"));
}

#[test]
fn a_module_is_granted_and_its_arguments_are_read() {
    let cfg = parse_config_str("[data]\npath = /srv/data\nlist = no\n").unwrap();
    let mut s = Session::new();
    assert!(matches!(s.on_line(&cfg, "@RSYNCD: 31.0\n"), ServerAction::Wait));
    match s.on_line(&cfg, "data\n") {
        ServerAction::Grant(line) => assert_eq!(line, "@RSYNCD: OK\n"),
        other => panic!("{:?}", other),
    }
    let sent: Vec<String> = ["--sender", ".", "data/"].iter().map(|s| s.to_string()).collect();
    let mut r = ArgReader::new();
    r.feed_all(&write_argv(&sent), "data");
    assert!(r.done);
    assert_eq!(r.args, ["rsyncd", "--server", "--sender", ".", "."]);
    assert_eq!(admit_client(&r.args, &cfg.modules[0]), Ok(true));
}

#[test]
fn an_unknown_module_is_refused() {
    let cfg = parse_config_str("[data]\npath = /srv/data\n").unwrap();
    let mut s = Session::new();
    s.on_line(&cfg, "@RSYNCD: 31.0\n");
    match s.on_line(&cfg, "other\n") {
        ServerAction::Refuse(line) => assert!(line.contains("other")),
        other => panic!("{:?}", other),
    }
}

#[test]
fn unlisted_modules_are_not_listed() {
    let cfg = parse_config_str("[a]\npath = /a\ncomment = first\n[b]\npath = /b\nlist = no\n").unwrap();
    let mut s = Session::new();
    s.on_line(&cfg, "@RSYNCD: 31.0\n");
    assert!(matches!(s.on_line(&cfg, "#list\n"), ServerAction::List));
    let text = listing_text(&cfg, &Some("welcome\n".to_string()));
    assert!(text.contains("welcome"));
    assert!(text.contains("a") && text.contains("first"));
    assert!(!text.contains("/b"));
    assert!(text.ends_with("@RSYNCD: EXIT\n"));
}

#[test]
fn a_read_only_module_takes_no_files() {
    let cfg = parse_config_str("[data]\npath = /srv/data\nread only = yes\n").unwrap();
    let args: Vec<String> = ["--server", ".", "x"].iter().map(|s| s.to_string()).collect();
    assert!(admit_client(&args, &cfg.modules[0]).is_err());
}

#[test]
fn the_missing_path_is_named() {
    match parse_config_str("[bad]\ncomment = nopath\n") {
        Err(ConfigError::MissingPath(name)) => assert_eq!(name, "bad"),
        other => panic!("{:?}", other),
    }
}

#[test]
fn the_port_of_the_options_comes_first() {
    let cfg = parse_config_str("port = 1234\n").unwrap();
    let mut o = Options::default();
    assert_eq!(listen_on(&o, &cfg).1, 1234);
    o.port = Some(99);
    assert_eq!(listen_on(&o, &cfg).1, 99);
    let cfg = parse_config_str("").unwrap();
    assert_eq!(listen_on(&Options::default(), &cfg).1, DAEMON_PORT);
}
