//! What is reported at the end: the counters, and the reason of a failure.

use vstd::prelude::*;

use crate::daemon::{lower, lower_of};
use crate::protocol::errcode::ExitCode;
use crate::protocol::types::Stats;
use crate::text::{chars_of, same_chars, text};
use crate::util::{big_num, big_text};

verus! {

// ---------------------------------------------------------------------------
// Counters
// ---------------------------------------------------------------------------

/// A count by kind of file: of all files, of directories, of links, of
/// devices, and of special files.
#[derive(Clone, Copy, Debug, PartialEq, Eq, Structural)]
pub struct Counts {
    pub total: i32,
    pub dirs: i32,
    pub links: i32,
    pub devices: i32,
    pub specials: i32,
}

/// How many of the files are regular ones.
pub open spec fn regular_count(c: Counts) -> int {
    c.total - (c.dirs + c.links + c.devices + c.specials)
}

/// Whether the regular files can be counted.
pub open spec fn counts_fit(c: Counts) -> bool {
    &&& i32::MIN <= c.dirs + c.links <= i32::MAX
    &&& i32::MIN <= c.dirs + c.links + c.devices <= i32::MAX
    &&& i32::MIN <= c.dirs + c.links + c.devices + c.specials <= i32::MAX
    &&& i32::MIN <= regular_count(c) <= i32::MAX
}

/// What is said so far of the kinds, with one kind more.  The first that
/// counts is put behind a bracket, any other behind a comma.
pub open spec fn with_kind(so_far: Seq<char>, label: Seq<char>, n: int) -> Seq<char> {
    if n == 0 {
        so_far
    } else {
        so_far + (if so_far.len() == 0 {
            " ("@
        } else {
            ", "@
        }) + label + ": "@ + big_text(n)
    }
}

/// What is said of the kinds.
pub open spec fn kinds_text(c: Counts) -> Seq<char> {
    let a = with_kind(Seq::empty(), "reg"@, regular_count(c));
    let b = with_kind(a, "dir"@, c.dirs as int);
    let d = with_kind(b, "link"@, c.links as int);
    let e = with_kind(d, "dev"@, c.devices as int);
    let f = with_kind(e, "special"@, c.specials as int);
    if f.len() == 0 {
        f
    } else {
        f + ")"@
    }
}

/// A count by kind of file, as a line.
pub open spec fn counts_line(prefix: Seq<char>, c: Counts) -> Seq<char> {
    if c.total == 0 {
        prefix + ": 0\n"@
    } else {
        prefix + ": "@ + big_text(c.total as int) + kinds_text(c) + "\n"@
    }
}

fn push_kind(s: &mut String, label: &str, n: i32)
    ensures
        final(s)@ == with_kind(old(s)@, label@, n as int),
{
    if n == 0 {
        return;
    }
    let first: bool = s.as_str().is_empty();
    if first {
        s.push_str(" (");
    } else {
        s.push_str(", ");
    }
    s.push_str(label);
    s.push_str(": ");
    s.push_str(big_num(n as i64).as_str());
    assert(s@ =~= with_kind(old(s)@, label@, n as int));
}

/// Writes a count by kind of file.
pub fn itemized_counts(prefix: &str, c: Counts) -> (s: String)
    requires
        counts_fit(c),
    ensures
        s@ == counts_line(prefix@, c),
{
    let mut s: String = text(prefix);
    if c.total == 0 {
        s.push_str(": 0\n");
        return s;
    }
    let regular: i32 = c.total - (c.dirs + c.links + c.devices + c.specials);
    let mut kinds: String = String::new();
    assert(kinds@ =~= Seq::<char>::empty());
    push_kind(&mut kinds, "reg", regular);
    push_kind(&mut kinds, "dir", c.dirs);
    push_kind(&mut kinds, "link", c.links);
    push_kind(&mut kinds, "dev", c.devices);
    push_kind(&mut kinds, "special", c.specials);
    if !kinds.as_str().is_empty() {
        kinds.push_str(")");
    }
    assert(kinds@ == kinds_text(c));
    s.push_str(": ");
    s.push_str(big_num(c.total as i64).as_str());
    s.push_str(kinds.as_str());
    s.push_str("\n");
    assert(s@ =~= counts_line(prefix@, c));
    s
}

/// The files of the list, by kind.
pub open spec fn listed_counts(s: Stats) -> Counts {
    Counts {
        total: s.num_files,
        dirs: s.num_dirs,
        links: s.num_symlinks,
        devices: s.num_devices,
        specials: s.num_specials,
    }
}

/// The files that were created, by kind.
pub open spec fn created_counts(s: Stats) -> Counts {
    Counts {
        total: s.created_files,
        dirs: s.created_dirs,
        links: s.created_symlinks,
        devices: s.created_devices,
        specials: s.created_specials,
    }
}

/// The files that were deleted, by kind.
pub open spec fn deleted_counts(s: Stats) -> Counts {
    Counts {
        total: s.deleted_files,
        dirs: s.deleted_dirs,
        links: s.deleted_symlinks,
        devices: s.deleted_devices,
        specials: s.deleted_specials,
    }
}

/// The figures of a report that are fractions, as they are written.
#[derive(Debug)]
pub struct Figures {
    /// How many seconds building the list took.
    pub build: String,
    /// How many seconds sending it took.
    pub transfer: String,
    /// Bytes each second.
    pub rate: String,
    pub speedup: String,
}

/// A number behind a label, with a unit.
pub open spec fn figure_line(label: Seq<char>, n: int, unit: Seq<char>) -> Seq<char> {
    label + big_text(n) + unit
}

/// The counts in a full report.
pub open spec fn count_lines(s: Stats) -> Seq<char> {
    "\n"@ + counts_line("Number of files"@, listed_counts(s)) + counts_line(
        "Number of created files"@,
        created_counts(s),
    ) + counts_line("Number of deleted files"@, deleted_counts(s))
}

/// The sizes in a full report.
pub open spec fn size_lines(s: Stats) -> Seq<char> {
    figure_line("Number of regular files transferred: "@, s.xferred_files as int, "\n"@)
        + figure_line("Total file size: "@, s.total_size as int, " bytes\n"@) + figure_line(
        "Total transferred file size: "@,
        s.total_transferred_size as int,
        " bytes\n"@,
    ) + figure_line("Literal data: "@, s.literal_data as int, " bytes\n"@) + figure_line(
        "Matched data: "@,
        s.matched_data as int,
        " bytes\n"@,
    ) + figure_line("File list size: "@, s.flist_size as int, "\n"@)
}

/// The times in a full report, where they were taken.
pub open spec fn time_lines(s: Stats, f: Figures) -> Seq<char> {
    if s.flist_buildtime == 0 {
        Seq::empty()
    } else {
        "File list generation time: "@ + f.build@ + " seconds\nFile list transfer time: "@
            + f.transfer@ + " seconds\n"@
    }
}

/// What a full report has in front of a short one.
pub open spec fn full_lines(s: Stats, f: Figures) -> Seq<char> {
    count_lines(s) + size_lines(s) + time_lines(s, f) + figure_line(
        "Total bytes sent: "@,
        s.total_written as int,
        "\n"@,
    ) + figure_line("Total bytes received: "@, s.total_read as int, "\n"@)
}

/// A short report.
pub open spec fn short_lines(s: Stats, f: Figures, dry_run: bool) -> Seq<char> {
    figure_line("\nsent "@, s.total_written as int, " bytes  received "@) + big_text(
        s.total_read as int,
    ) + " bytes  "@ + f.rate@ + " bytes/sec\n"@ + figure_line(
        "total size is "@,
        s.total_size as int,
        "  speedup is "@,
    ) + f.speedup@ + if dry_run {
        " (DRY RUN)\n"@
    } else {
        "\n"@
    }
}

/// A report.
pub open spec fn stats_lines(s: Stats, f: Figures, full: bool, dry_run: bool) -> Seq<char> {
    (if full {
        full_lines(s, f)
    } else {
        Seq::empty()
    }) + short_lines(s, f, dry_run)
}

spec fn longer(before: String, after: String, piece: Seq<char>) -> bool {
    after@ == before@ + piece
}

fn push_figure(out: &mut String, label: &str, n: i64, unit: &str)
    ensures
        longer(*old(out), *final(out), figure_line(label@, n as int, unit@)),
{
    out.push_str(label);
    out.push_str(big_num(n).as_str());
    out.push_str(unit);
    assert(out@ =~= old(out)@ + figure_line(label@, n as int, unit@));
}

fn counts_text(s: &Stats) -> (out: String)
    requires
        counts_fit(listed_counts(*s)),
        counts_fit(created_counts(*s)),
        counts_fit(deleted_counts(*s)),
    ensures
        out@ == count_lines(*s),
{
    let listed: Counts = Counts {
        total: s.num_files,
        dirs: s.num_dirs,
        links: s.num_symlinks,
        devices: s.num_devices,
        specials: s.num_specials,
    };
    let created: Counts = Counts {
        total: s.created_files,
        dirs: s.created_dirs,
        links: s.created_symlinks,
        devices: s.created_devices,
        specials: s.created_specials,
    };
    let deleted: Counts = Counts {
        total: s.deleted_files,
        dirs: s.deleted_dirs,
        links: s.deleted_symlinks,
        devices: s.deleted_devices,
        specials: s.deleted_specials,
    };
    let mut out: String = text("\n");
    out.push_str(itemized_counts("Number of files", listed).as_str());
    out.push_str(itemized_counts("Number of created files", created).as_str());
    out.push_str(itemized_counts("Number of deleted files", deleted).as_str());
    out
}

fn sizes_text(s: &Stats) -> (out: String)
    ensures
        out@ == size_lines(*s),
{
    let mut out: String = String::new();
    push_figure(&mut out, "Number of regular files transferred: ", s.xferred_files as i64, "\n");
    assert(out@ =~= figure_line(
        "Number of regular files transferred: "@,
        s.xferred_files as int,
        "\n"@,
    ));
    push_figure(&mut out, "Total file size: ", s.total_size, " bytes\n");
    push_figure(&mut out, "Total transferred file size: ", s.total_transferred_size, " bytes\n");
    push_figure(&mut out, "Literal data: ", s.literal_data, " bytes\n");
    push_figure(&mut out, "Matched data: ", s.matched_data, " bytes\n");
    push_figure(&mut out, "File list size: ", s.flist_size, "\n");
    out
}

fn times_text(s: &Stats, f: &Figures) -> (out: String)
    ensures
        out@ == time_lines(*s, *f),
{
    let mut out: String = String::new();
    if s.flist_buildtime != 0 {
        out.push_str("File list generation time: ");
        out.push_str(f.build.as_str());
        out.push_str(" seconds\nFile list transfer time: ");
        out.push_str(f.transfer.as_str());
        out.push_str(" seconds\n");
    }
    assert(out@ =~= time_lines(*s, *f));
    out
}

fn short_text(s: &Stats, f: &Figures, dry_run: bool) -> (out: String)
    ensures
        out@ == short_lines(*s, *f, dry_run),
{
    let mut out: String = String::new();
    push_figure(&mut out, "\nsent ", s.total_written, " bytes  received ");
    assert(out@ =~= figure_line("\nsent "@, s.total_written as int, " bytes  received "@));
    out.push_str(big_num(s.total_read).as_str());
    out.push_str(" bytes  ");
    out.push_str(f.rate.as_str());
    out.push_str(" bytes/sec\n");
    push_figure(&mut out, "total size is ", s.total_size, "  speedup is ");
    out.push_str(f.speedup.as_str());
    if dry_run {
        out.push_str(" (DRY RUN)\n");
    } else {
        out.push_str("\n");
    }
    out
}

/// Writes the report of a transfer.
pub fn stats_report(s: &Stats, f: &Figures, full: bool, dry_run: bool) -> (out: String)
    requires
        full ==> counts_fit(listed_counts(*s)) && counts_fit(created_counts(*s)) && counts_fit(
            deleted_counts(*s),
        ),
    ensures
        out@ == stats_lines(*s, *f, full, dry_run),
{
    let mut out: String = String::new();
    if full {
        let counts: String = counts_text(s);
        out.push_str(counts.as_str());
        assert(out@ =~= count_lines(*s));
        out.push_str(sizes_text(s).as_str());
        out.push_str(times_text(s, f).as_str());
        push_figure(&mut out, "Total bytes sent: ", s.total_written, "\n");
        push_figure(&mut out, "Total bytes received: ", s.total_read, "\n");
        assert(out@ == full_lines(*s, *f));
    } else {
        assert(out@ =~= Seq::<char>::empty());
    }
    out.push_str(short_text(s, f, dry_run).as_str());
    out
}

// ---------------------------------------------------------------------------
// Failures
// ---------------------------------------------------------------------------

/// Whether `part` is somewhere in `s`.
pub open spec fn holds_part(s: Seq<char>, part: Seq<char>) -> bool {
    exists|i: int|
        0 <= i <= s.len() - part.len() && #[trigger] s.subrange(i, i + part.len()) == part
}

/// The exit code for a failure, by the words that describe it.
pub open spec fn exit_code_of(message: Seq<char>) -> ExitCode {
    let s = lower(message);
    if holds_part(s, "protocol"@) || holds_part(s, "handshake"@) {
        ExitCode::Protocol
    } else if holds_part(s, "connection"@) || holds_part(s, "ssh"@) || holds_part(s, "socket"@) {
        ExitCode::SocketIo
    } else if holds_part(s, "no such file"@) || holds_part(s, "permission denied"@) {
        ExitCode::FileIo
    } else if holds_part(s, "vanished"@) {
        ExitCode::Vanished
    } else if holds_part(s, "partial"@) {
        ExitCode::Partial
    } else if holds_part(s, "timeout"@) {
        ExitCode::Timeout
    } else {
        ExitCode::FileIo
    }
}

fn contains_part(s: &Vec<char>, part: &str) -> (b: bool)
    ensures
        b == holds_part(s@, part@),
{
    let p: Vec<char> = chars_of(part);
    let n: usize = p.len();
    if n > s.len() {
        return false;
    }
    let last: usize = s.len() - n;
    let mut i: usize = 0;
    loop
        invariant
            p@ == part@,
            n == p@.len(),
            n <= s.len(),
            last == s.len() - n,
            i <= last,
            forall|k: int| 0 <= k < i ==> #[trigger] s@.subrange(k, k + n) != part@,
        decreases last - i,
    {
        let window: &[char] = crate::text::cut(s.as_slice(), i, i + n);
        if same_chars(window, p.as_slice()) {
            assert(s@.subrange(i as int, i + part@.len()) == part@);
            return true;
        }
        if i == last {
            return false;
        }
        i = i + 1;
    }
}

/// Picks the exit code for a failure, by the words that describe it.
pub fn classify_error(message: &str) -> (code: ExitCode)
    ensures
        code == exit_code_of(message@),
{
    let chars: Vec<char> = chars_of(message);
    let s: Vec<char> = lower_of(chars.as_slice());
    if contains_part(&s, "protocol") || contains_part(&s, "handshake") {
        ExitCode::Protocol
    } else if contains_part(&s, "connection") || contains_part(&s, "ssh") || contains_part(
        &s,
        "socket",
    ) {
        ExitCode::SocketIo
    } else if contains_part(&s, "no such file") || contains_part(&s, "permission denied") {
        ExitCode::FileIo
    } else if contains_part(&s, "vanished") {
        ExitCode::Vanished
    } else if contains_part(&s, "partial") {
        ExitCode::Partial
    } else if contains_part(&s, "timeout") {
        ExitCode::Timeout
    } else {
        ExitCode::FileIo
    }
}

} // verus!
