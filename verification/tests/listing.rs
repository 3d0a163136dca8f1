use rsync_rs::listing::{count_listed, date_of, fmt_mode, fmt_ts, list_line, Listed};
use rsync_rs::progress::{format_elapsed, format_eta};
use rsync_rs::protocol::errcode::ExitCode;
use rsync_rs::protocol::types::Stats;
use rsync_rs::report::{classify_error, itemized_counts, stats_report, Counts, Figures};

#[test]
fn days_have_dates() {
    assert_eq!(date_of(0), (1970, 1, 1));
    assert_eq!(date_of(59), (1970, 3, 1));
    assert_eq!(date_of(11_016), (2000, 2, 29));
    assert_eq!(date_of(11_017), (2000, 3, 1));
    assert_eq!(date_of(19_675), (2023, 11, 14));
}

#[test]
fn seconds_have_stamps() {
    assert_eq!(fmt_ts(0), "1970/01/01 00:00:00");
    assert_eq!(fmt_ts(1_700_000_000), "2023/11/14 22:13:20");
}

#[test]
fn modes_are_spelled_out() {
    assert_eq!(fmt_mode(0o100644, false, false), "-rw-r--r--");
    assert_eq!(fmt_mode(0o040755, true, false), "drwxr-xr-x");
    assert_eq!(fmt_mode(0o120777, false, true), "lrwxrwxrwx");
}

#[test]
fn a_line_shows_a_directory_with_a_slash() {
    let f = Listed { mode: 0o040755, is_dir: true, is_symlink: false, size: 4096, mtime: 0 };
    assert_eq!(list_line(&f, "src"), "drwxr-xr-x          4,096 1970/01/01 00:00:00 src/");
}

#[test]
fn listed_files_are_counted() {
    let mut s = Stats::default();
    count_listed(&mut s, &Listed { mode: 0o100644, is_dir: false, is_symlink: false, size: 9, mtime: 0 });
    count_listed(&mut s, &Listed { mode: 0o040755, is_dir: true, is_symlink: false, size: 1, mtime: 0 });
    assert_eq!(s.num_dirs, 1);
    assert_eq!(s.num_files, 1);
    assert_eq!(s.total_size, 9);
}

#[test]
fn counts_name_the_kinds() {
    let c = Counts { total: 1234, dirs: 30, links: 4, devices: 0, specials: 0 };
    assert_eq!(
        itemized_counts("Number of files", c),
        "Number of files: 1,234 (reg: 1,200, dir: 30, link: 4)\n"
    );
    let c = Counts { total: 0, dirs: 0, links: 0, devices: 0, specials: 0 };
    assert_eq!(itemized_counts("Number of files", c), "Number of files: 0\n");
}

#[test]
fn the_report_holds_the_figures() {
    let mut s = Stats::default();
    s.num_files = 3;
    s.total_size = 12_345;
    let f = Figures {
        build: "0.001".to_string(),
        transfer: "0.002".to_string(),
        rate: "99.50".to_string(),
        speedup: "1.25".to_string(),
    };
    let full = stats_report(&s, &f, true, false);
    assert!(full.contains("12,345"));
    assert!(full.contains("99.50"));
    assert!(full.contains("1.25"));
    assert!(!full.contains("(DRY RUN)"));
    assert!(stats_report(&s, &f, true, true).contains("(DRY RUN)"));
}

#[test]
fn errors_are_sorted_by_their_text() {
    assert_eq!(classify_error("something else entirely"), ExitCode::FileIo);
    assert_eq!(classify_error("Handshake failed"), ExitCode::Protocol);
    assert_eq!(classify_error("lost Connection"), ExitCode::SocketIo);
    assert_eq!(classify_error("file has vanished"), ExitCode::Vanished);
    assert_eq!(classify_error("partial transfer"), ExitCode::Partial);
    assert_eq!(classify_error("timeout"), ExitCode::Timeout);
    assert_eq!(ExitCode::Partial.as_i32(), 23);
    assert!(ExitCode::Partial.to_text().contains("23"));
}

#[test]
fn times_are_written_in_hours() {
    assert_eq!(format_eta(3_725), "  1:02:05");
    assert_eq!(format_elapsed(59), "0:00:59");
}
