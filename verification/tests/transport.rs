use rsync_rs::batch::shell_quote;
use rsync_rs::transport::daemon::{
    parse_greeting, write_argv, ClientAction, ClientError, ClientState, DaemonClient,
};
use rsync_rs::transport::local::local_command;
use rsync_rs::transport::ssh::{shell_split, ssh_command};

#[test]
fn parses_greetings() {
    assert_eq!(parse_greeting("@RSYNCD: 31.0"), Some(31));
    assert_eq!(parse_greeting("@RSYNCD: 30"), Some(30));
    assert_eq!(parse_greeting("@RSYNCD: 31.0 sha512 sha256 sha1 md5 md4"), Some(31));
    assert_eq!(parse_greeting("@RSYNCD"), None);
    assert_eq!(parse_greeting("not a greeting"), None);
}

#[test]
fn single_word() {
    assert_eq!(shell_split("ssh"), vec!["ssh"]);
}

#[test]
fn two_words() {
    assert_eq!(shell_split("ssh -p2222"), vec!["ssh", "-p2222"]);
}

#[test]
fn quoted_args() {
    assert_eq!(
        shell_split(r#"ssh -o "User=root" -i 'my key.pem'"#),
        vec!["ssh", "-o", "User=root", "-i", "my key.pem"],
    );
}

#[test]
fn backslash_escape() {
    assert_eq!(
        shell_split(r"ssh -i my\ key.pem"),
        vec!["ssh", "-i", "my key.pem"],
    );
}

#[test]
fn windows_unquoted_path_preserved() {
    assert_eq!(
        shell_split(r"C:\Python\python.exe C:\tmp\rsh.py"),
        vec![r"C:\Python\python.exe", r"C:\tmp\rsh.py"],
    );
}

#[test]
fn empty_arg() {
    assert_eq!(shell_split(""), Vec::<String>::new());
}

#[test]
fn windows_path() {
    assert_eq!(
        shell_split(r#""C:\Program Files\OpenSSH\ssh.exe" -p 22"#),
        vec![r"C:\Program Files\OpenSSH\ssh.exe", "-p", "22"],
    );
}

#[test]
fn a_client_gets_ready_by_a_grant() {
    let mut c = DaemonClient::new("data".to_string(), vec!["--server".to_string(), ".".to_string()]);
    match c.on_line("@RSYNCD: 31.0\n", 0) {
        ClientAction::Send(bytes) => assert!(bytes.ends_with(b"data\n")),
        other => panic!("{:?}", other),
    }
    assert!(matches!(c.on_line("hello there\n", 0), ClientAction::Show(_)));
    match c.on_line("@RSYNCD: OK\n", 0) {
        ClientAction::Send(bytes) => assert_eq!(bytes, write_argv(&c.args)),
        other => panic!("{:?}", other),
    }
    assert!(matches!(c.state, ClientState::Ready(31)));
}

#[test]
fn a_client_fails_as_it_is_told() {
    let fresh = || DaemonClient::new("data".to_string(), Vec::new());
    let mut c = fresh();
    assert!(matches!(c.on_line("220 mail\n", 0), ClientAction::Fail(ClientError::BadGreeting(_))));
    let mut c = fresh();
    assert!(matches!(c.on_line("@RSYNCD: 19\n", 0), ClientAction::Fail(ClientError::TooOld(19))));
    let mut c = fresh();
    c.on_line("@RSYNCD: 31.0\n", 0);
    assert!(matches!(c.on_line("@RSYNCD: EXIT\n", 0), ClientAction::Fail(ClientError::NoAccess)));
    let mut c = fresh();
    c.on_line("@RSYNCD: 31.0\n", 0);
    assert!(matches!(
        c.on_line("@RSYNCD: AUTHREQD abc\n", 0),
        ClientAction::Fail(ClientError::AuthRequired)
    ));
    let mut c = fresh();
    c.on_line("@RSYNCD: 31.0\n", 0);
    assert!(matches!(c.on_line("@ERROR: no\n", 0), ClientAction::Fail(ClientError::Rejected(_))));
    let mut c = fresh();
    c.on_line("@RSYNCD: 31.0\n", 0);
    assert!(matches!(c.on_line("@RSYNCD: OK\n", 3), ClientAction::Fail(ClientError::ExtraBytes(3))));
    let mut c = fresh();
    assert!(matches!(c.on_eof(), ClientAction::Fail(ClientError::BadGreeting(_))));
    let mut c = fresh();
    c.on_line("@RSYNCD: 31.0\n", 0);
    assert!(matches!(c.on_eof(), ClientAction::Fail(ClientError::HungUp)));
}

#[test]
fn commands_are_put_together() {
    let args = vec!["--server".to_string()];
    let c = ssh_command("ssh -p 22", &[], "host", Some("alice"), "rsync", &args, "/srv/x").unwrap();
    assert_eq!(c, ["ssh", "-p", "22", "alice@host", "rsync", "--server", "--server", ".", "/srv/x"]);
    assert_eq!(ssh_command("", &[], "host", None, "rsync", &args, "x"), None);
    let l = local_command("rsync", &args, "/srv/x");
    assert_eq!(l, ["rsync", "--server", "--server", ".", "/srv/x"]);
}

#[test]
fn a_quoted_word_is_one_word() {
    for s in ["plain", "two words", "it's", "a\"b"] {
        assert_eq!(shell_split(&shell_quote(s)), vec![s]);
    }
}

#[test]
fn quoted_words_are_found_again() {
    let words = ["plain", "two words", "it's", "-x"];
    let line = words.iter().map(|w| shell_quote(w)).collect::<Vec<_>>().join(" ");
    assert_eq!(shell_split(&line), words);
}

#[test]
fn white_space_outside_ascii_is_quoted() {
    assert_eq!(shell_quote("a\u{3000}b"), "'a\u{3000}b'");
    assert_eq!(shell_quote("\u{e9}"), "\u{e9}");
    assert_eq!(shell_split(&shell_quote("a\u{2028}b")), ["a\u{2028}b"]);
    assert!(shell_split("").is_empty());
}
