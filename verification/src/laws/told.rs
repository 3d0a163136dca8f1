//! What is told of a run: changes, counters, messages and the reason of a
//! failure; and what a run deletes.

use vstd::prelude::*;

use crate::daemon::lower;
use crate::delete::{dealt_with, deletion_counted, says_nothing, staying, stays, DeleteAction};
use crate::flags::flag_set;
use crate::laws::words::{can_be_name, path_is_taken_apart, slashed};
use crate::log::{printed_line, prints, LogLevel};
use crate::path::{components, is_front};
use crate::protocol::errcode::ExitCode;
use crate::protocol::types::{FileEntry, Stats};
use crate::report::{
    count_lines, counts_line, created_counts, deleted_counts, exit_code_of, figure_line, full_lines,
    holds_part, listed_counts, regular_count, short_lines, size_lines, stats_lines, time_lines,
    Counts, Figures,
};
use crate::util::{attribute_chars, big_text, change_text, nine};

verus! {

// ---------------------------------------------------------------------------
// Changes
// ---------------------------------------------------------------------------

/// A bit of a word is set exactly where it takes part in the sum that the word
/// is.
pub proof fn bit_takes_part(high: nat, bit: u32, low: nat)
    requires
        bit > 0,
        low < bit,
        high * 2 * bit + bit + low <= u32::MAX,
    ensures
        flag_set((high * 2 * bit + bit + low) as u32, bit),
        !flag_set((high * 2 * bit + low) as u32, bit),
{
    let b = bit as int;
    let h = high as int;
    let with = h * 2 * b + b + low;
    let without = h * 2 * b + low;
    assert(with == b * (2 * h + 1) + low) by (nonlinear_arith)
        requires
            with == h * 2 * b + b + low,
    ;
    assert(without == b * (2 * h) + low) by (nonlinear_arith)
        requires
            without == h * 2 * b + low,
    ;
    assert(0 <= without) by (nonlinear_arith)
        requires
            without == h * 2 * b + low,
            h >= 0,
            b > 0,
            low >= 0,
    ;
    vstd::arithmetic::div_mod::lemma_fundamental_div_mod_converse(with, b, 2 * h + 1, low as int);
    vstd::arithmetic::div_mod::lemma_fundamental_div_mod_converse(without, b, 2 * h, low as int);
}

/// A deleted file is said to be deleted, a new one to be new in all it has, and
/// one whose data is missing to be unknown.
pub proof fn new_and_deleted_files_are_told(iflags: u32, mode: u32, am_sender: bool)
    ensures
        ({
            let s = change_text(iflags, mode, am_sender);
            let deleted = flag_set(iflags, 0x2_0000);
            let new = flag_set(iflags, 0x2000);
            let missing = flag_set(iflags, 0x1_0000);
            &&& s.len() == 11
            &&& deleted ==> s == "*deleting  "@
            &&& !deleted && new ==> forall|k: int| 2 <= k < 11 ==> #[trigger] s[k] == '+'
            &&& !deleted && !new && missing ==> forall|k: int| 2 <= k < 11 ==> #[trigger] s[k] == '?'
        }),
{
    reveal_strlit("*deleting  ");
}

/// The first letter of a change says which way the data goes, or that nothing
/// is transferred, and the second what kind of file it is.
pub proof fn first_letters_tell_way_and_kind(iflags: u32, mode: u32, am_sender: bool)
    requires
        !flag_set(iflags, 0x2_0000),
    ensures
        ({
            let s = change_text(iflags, mode, am_sender);
            let local = flag_set(iflags, 0x4000);
            let sent = flag_set(iflags, 0x8000);
            &&& local && flag_set(iflags, 0x1000) ==> s[0] == 'h'
            &&& local && !flag_set(iflags, 0x1000) ==> s[0] == 'c'
            &&& !local && sent ==> s[0] == if am_sender {
                '<'
            } else {
                '>'
            }
            &&& !local && !sent ==> s[0] == '.'
            &&& (s[1] == 'd') == (mode / 0x1000 % 16 == 4)
            &&& (s[1] == 'L') == (mode / 0x1000 % 16 == 10)
            &&& (s[1] == 'S') == (mode / 0x1000 % 16 == 12 || mode / 0x1000 % 16 == 1)
            &&& (s[1] == 'D') == (mode / 0x1000 % 16 == 2 || mode / 0x1000 % 16 == 6)
            &&& s[1] == 'd' || s[1] == 'L' || s[1] == 'S' || s[1] == 'D' || s[1] == 'f'
        }),
{
}

/// Each attribute of a transferred file that changed has its letter at its
/// place, and each that did not has a dot there.
pub proof fn changed_attributes_are_told(iflags: u32, mode: u32, am_sender: bool)
    requires
        !flag_set(iflags, 0x2_0000),
        !flag_set(iflags, 0x2000),
        !flag_set(iflags, 0x1_0000),
        !flag_set(iflags, 0x4000),
        flag_set(iflags, 0x8000),
    ensures
        ({
            let s = change_text(iflags, mode, am_sender);
            let link = mode / 0x1000 % 16 == 10;
            &&& s[2] == 'c' && flag_set(iflags, 2) || s[2] == '.' && !flag_set(iflags, 2)
            &&& !link ==> s[3] == 's' && flag_set(iflags, 4) || s[3] == '.' && !flag_set(iflags, 4)
            &&& link ==> s[3] == '.'
            &&& s[4] == 't' && flag_set(iflags, 8) || s[4] == '.' && !flag_set(iflags, 8)
            &&& s[5] == 'p' && flag_set(iflags, 0x10) || s[5] == '.' && !flag_set(iflags, 0x10)
            &&& s[6] == 'o' && flag_set(iflags, 0x20) || s[6] == '.' && !flag_set(iflags, 0x20)
            &&& s[7] == 'g' && flag_set(iflags, 0x40) || s[7] == '.' && !flag_set(iflags, 0x40)
            &&& (s[8] == 'u' || s[8] == 'b') == flag_set(iflags, 1)
            &&& (s[8] == 'n' || s[8] == 'b') == flag_set(iflags, 0x400)
            &&& s[9] == 'a' && flag_set(iflags, 0x80) || s[9] == '.' && !flag_set(iflags, 0x80)
            &&& s[10] == 'x' && flag_set(iflags, 0x100) || s[10] == '.' && !flag_set(iflags, 0x100)
        }),
{
}

/// A file that is not transferred and has not changed is followed by blanks
/// alone; any change of it is told as if it were transferred.
pub proof fn unchanged_files_are_left_blank(iflags: u32, mode: u32, am_sender: bool)
    requires
        !flag_set(iflags, 0x2_0000),
        !flag_set(iflags, 0x2000),
        !flag_set(iflags, 0x1_0000),
        !flag_set(iflags, 0x8000),
    ensures
        ({
            let s = change_text(iflags, mode, am_sender);
            let same = !flag_set(iflags, 1) && !flag_set(iflags, 2) && (!flag_set(iflags, 4) || mode
                / 0x1000 % 16 == 10) && !flag_set(iflags, 8) && !flag_set(iflags, 0x10)
                && !flag_set(iflags, 0x20) && !flag_set(iflags, 0x40) && !flag_set(iflags, 0x80)
                && !flag_set(iflags, 0x100) && !flag_set(iflags, 0x400);
            &&& same ==> forall|k: int| 2 <= k < 11 ==> #[trigger] s[k] == ' '
            &&& !same ==> s.skip(2) == attribute_chars(iflags, mode)
        }),
{
    let a = attribute_chars(iflags, mode);
    let s = change_text(iflags, mode, am_sender);
    let same = !flag_set(iflags, 1) && !flag_set(iflags, 2) && (!flag_set(iflags, 4) || mode
        / 0x1000 % 16 == 10) && !flag_set(iflags, 8) && !flag_set(iflags, 0x10) && !flag_set(
        iflags,
        0x20,
    ) && !flag_set(iflags, 0x40) && !flag_set(iflags, 0x80) && !flag_set(iflags, 0x100)
        && !flag_set(iflags, 0x400);
    if same {
        assert(a =~= nine('.'));
    } else {
        assert(a != nine('.')) by {
            if a == nine('.') {
                assert(a[0] == nine('.')[0]);
                assert(a[1] == nine('.')[1]);
                assert(a[2] == nine('.')[2]);
                assert(a[3] == nine('.')[3]);
                assert(a[4] == nine('.')[4]);
                assert(a[5] == nine('.')[5]);
                assert(a[6] == nine('.')[6]);
                assert(a[7] == nine('.')[7]);
                assert(a[8] == nine('.')[8]);
            }
        }
        assert(s.skip(2) =~= a);
    }
}

// ---------------------------------------------------------------------------
// Counters
// ---------------------------------------------------------------------------

/// The kinds in a count add up to all files.
pub proof fn kinds_add_up(c: Counts)
    ensures
        regular_count(c) + c.dirs + c.links + c.devices + c.specials == c.total,
{
}

/// A count names its total behind the prefix, and none of the kinds that do not
/// occur: a count of regular files alone names no other kind.
pub proof fn count_of_one_kind(prefix: Seq<char>, n: i32)
    requires
        n != 0,
    ensures
        ({
            let all = Counts { total: n, dirs: 0, links: 0, devices: 0, specials: 0 };
            let dirs = Counts { dirs: n, ..all };
            let links = Counts { links: n, ..all };
            let devices = Counts { devices: n, ..all };
            let specials = Counts { specials: n, ..all };
            let head = prefix + ": "@ + big_text(n as int);
            &&& counts_line(prefix, all) == head + " ("@ + "reg"@ + ": "@ + big_text(n as int) + ")"@
                + "\n"@
            &&& counts_line(prefix, dirs) == head + " ("@ + "dir"@ + ": "@ + big_text(n as int)
                + ")"@ + "\n"@
            &&& counts_line(prefix, links) == head + " ("@ + "link"@ + ": "@ + big_text(n as int)
                + ")"@ + "\n"@
            &&& counts_line(prefix, devices) == head + " ("@ + "dev"@ + ": "@ + big_text(n as int)
                + ")"@ + "\n"@
            &&& counts_line(prefix, specials) == head + " ("@ + "special"@ + ": "@ + big_text(
                n as int,
            ) + ")"@ + "\n"@
        }),
        counts_line(prefix, Counts { total: 0, dirs: n, links: 0, devices: 0, specials: 0 })
            == prefix + ": 0\n"@,
{
    reveal_strlit(" (");
    reveal_strlit("reg");
    reveal_strlit("dir");
    reveal_strlit("link");
    reveal_strlit("dev");
    reveal_strlit("special");
    reveal_strlit(": ");
    reveal_strlit(")");
    reveal_strlit("\n");
    let all = Counts { total: n, dirs: 0, links: 0, devices: 0, specials: 0 };
    let dirs = Counts { dirs: n, ..all };
    let links = Counts { links: n, ..all };
    let devices = Counts { devices: n, ..all };
    let specials = Counts { specials: n, ..all };
    let head = prefix + ": "@ + big_text(n as int);
    let none = Seq::<char>::empty();
    assert(none + " ("@ =~= " ("@);
    assert(counts_line(prefix, all) =~= head + " ("@ + "reg"@ + ": "@ + big_text(n as int) + ")"@
        + "\n"@);
    assert(counts_line(prefix, dirs) =~= head + " ("@ + "dir"@ + ": "@ + big_text(n as int) + ")"@
        + "\n"@);
    assert(counts_line(prefix, links) =~= head + " ("@ + "link"@ + ": "@ + big_text(n as int) + ")"@
        + "\n"@);
    assert(counts_line(prefix, devices) =~= head + " ("@ + "dev"@ + ": "@ + big_text(n as int)
        + ")"@ + "\n"@);
    assert(counts_line(prefix, specials) =~= head + " ("@ + "special"@ + ": "@ + big_text(n as int)
        + ")"@ + "\n"@);
}

/// Each counter of a run is reported as what it counts.
pub proof fn counts_are_reported(s: Stats)
    ensures
        listed_counts(s).total == s.num_files && created_counts(s).total == s.created_files
            && deleted_counts(s).total == s.deleted_files,
        listed_counts(s).dirs == s.num_dirs && created_counts(s).dirs == s.created_dirs
            && deleted_counts(s).dirs == s.deleted_dirs,
        listed_counts(s).links == s.num_symlinks && created_counts(s).links == s.created_symlinks
            && deleted_counts(s).links == s.deleted_symlinks,
        listed_counts(s).devices == s.num_devices && created_counts(s).devices == s.created_devices
            && deleted_counts(s).devices == s.deleted_devices,
        listed_counts(s).specials == s.num_specials && created_counts(s).specials
            == s.created_specials && deleted_counts(s).specials == s.deleted_specials,
{
}

proof fn lemma_part(a: Seq<char>, part: Seq<char>, b: Seq<char>)
    ensures
        holds_part(a + part + b, part),
{
    let s = a + part + b;
    assert(s.subrange(a.len() as int, a.len() as int + part.len()) =~= part);
}

/// A report says how much was sent and received, and how large the files are,
/// each in figures, and a dry run says that it was one.
pub proof fn report_holds_the_totals(s: Stats, f: Figures, full: bool, dry_run: bool)
    ensures
        ({
            let r = stats_lines(s, f, full, dry_run);
            &&& holds_part(r, "\nsent "@ + big_text(s.total_written as int) + " bytes  received "@)
            &&& holds_part(
                r,
                " bytes  received "@ + big_text(s.total_read as int) + " bytes  "@,
            )
            &&& holds_part(
                r,
                "total size is "@ + big_text(s.total_size as int) + "  speedup is "@ + f.speedup@,
            )
            &&& dry_run ==> holds_part(r, " (DRY RUN)\n"@)
        }),
{
    let front = if full {
        full_lines(s, f)
    } else {
        Seq::<char>::empty()
    };
    let short = short_lines(s, f, dry_run);
    let t1 = "\nsent "@ + big_text(s.total_written as int) + " bytes  received "@;
    let t2 = " bytes  received "@ + big_text(s.total_read as int) + " bytes  "@;
    let t3 = "total size is "@ + big_text(s.total_size as int) + "  speedup is "@ + f.speedup@;
    lemma_short_report(s, f, dry_run);
    lemma_wider(short, front, t1);
    lemma_wider(short, front, t2);
    lemma_wider(short, front, t3);
    lemma_within(front + short, t1);
    lemma_within(front + short, t2);
    lemma_within(front + short, t3);
    if dry_run {
        lemma_wider(short, front, " (DRY RUN)\n"@);
        lemma_within(front + short, " (DRY RUN)\n"@);
    }
}

/// Whether `part` is somewhere in `s`.
#[verifier::opaque]
pub open spec fn within(s: Seq<char>, part: Seq<char>) -> bool {
    holds_part(s, part)
}

pub(crate) proof fn lemma_within(s: Seq<char>, part: Seq<char>)
    ensures
        within(s, part) == holds_part(s, part),
{
    reveal(within);
}

pub(crate) proof fn lemma_wider(a: Seq<char>, b: Seq<char>, part: Seq<char>)
    requires
        within(a, part),
    ensures
        within(a + b, part),
        within(b + a, part),
{
    reveal(within);
    let i = choose|i: int|
        0 <= i <= a.len() - part.len() && #[trigger] a.subrange(i, i + part.len()) == part;
    let k = b.len() + i;
    assert((a + b).subrange(i, i + part.len()) =~= a.subrange(i, i + part.len()));
    assert((b + a).subrange(k, k + part.len()) =~= a.subrange(i, i + part.len()));
}

pub(crate) proof fn lemma_itself(s: Seq<char>)
    ensures
        within(s, s),
{
    reveal(within);
    assert(s.subrange(0, 0 + s.len() as int) =~= s);
}

proof fn lemma_short_shape(
    a1: Seq<char>,
    d: Seq<char>,
    b: Seq<char>,
    rate: Seq<char>,
    unit: Seq<char>,
    size: Seq<char>,
    speedup: Seq<char>,
    end: Seq<char>,
)
    ensures
        ({
            let r = a1 + d + b + rate + unit + size + speedup + end;
            within(r, a1) && within(r, a1 + d + b) && within(r, size + speedup) && within(r, end)
        }),
{
    let a2 = a1 + d;
    let a3 = a2 + b;
    let a4 = a3 + rate;
    let a5 = a4 + unit;
    let a6 = a5 + size;
    let a7 = a6 + speedup;
    lemma_itself(a1);
    lemma_wider(a1, d, a1);
    lemma_wider(a2, b, a1);
    lemma_wider(a3, rate, a1);
    lemma_wider(a4, unit, a1);
    lemma_wider(a5, size, a1);
    lemma_wider(a6, speedup, a1);
    lemma_wider(a7, end, a1);
    lemma_itself(a3);
    lemma_wider(a3, rate, a3);
    lemma_wider(a4, unit, a3);
    lemma_wider(a5, size, a3);
    lemma_wider(a6, speedup, a3);
    lemma_wider(a7, end, a3);
    let t3 = size + speedup;
    lemma_itself(t3);
    lemma_wider(t3, a5, t3);
    assert(a7 =~= a5 + t3);
    lemma_wider(a7, end, t3);
    lemma_itself(end);
    lemma_wider(end, a7, end);
}

proof fn lemma_part_within(s: Seq<char>, t: Seq<char>, part: Seq<char>)
    requires
        within(s, t),
        within(t, part),
    ensures
        within(s, part),
{
    reveal(within);
    let i = choose|i: int|
        0 <= i <= s.len() - t.len() && #[trigger] s.subrange(i, i + t.len()) == t;
    let j = choose|j: int|
        0 <= j <= t.len() - part.len() && #[trigger] t.subrange(j, j + part.len()) == part;
    let k = i + j;
    assert(s.subrange(k, k + part.len()) =~= s.subrange(i, i + t.len()).subrange(
        j,
        j + part.len(),
    ));
}

proof fn lemma_short_report(s: Stats, f: Figures, dry_run: bool)
    ensures
        ({
            let r = short_lines(s, f, dry_run);
            &&& within(r, "\nsent "@ + big_text(s.total_written as int) + " bytes  received "@)
            &&& within(r, " bytes  received "@ + big_text(s.total_read as int) + " bytes  "@)
            &&& within(
                r,
                "total size is "@ + big_text(s.total_size as int) + "  speedup is "@ + f.speedup@,
            )
            &&& dry_run ==> within(r, " (DRY RUN)\n"@)
        }),
{
    let w = big_text(s.total_written as int);
    let d = big_text(s.total_read as int);
    let end = if dry_run {
        " (DRY RUN)\n"@
    } else {
        "\n"@
    };
    let sent = "\nsent "@ + w;
    let got = " bytes  received "@;
    let a1 = sent + got;
    let size = "total size is "@ + big_text(s.total_size as int) + "  speedup is "@;
    let r = short_lines(s, f, dry_run);
    lemma_short_shape(a1, d, " bytes  "@, f.rate@, " bytes/sec\n"@, size, f.speedup@, end);
    assert(r == a1 + d + " bytes  "@ + f.rate@ + " bytes/sec\n"@ + size + f.speedup@ + end);
    let t2 = got + d + " bytes  "@;
    lemma_itself(t2);
    lemma_wider(t2, sent, t2);
    assert(a1 + d + " bytes  "@ =~= sent + t2);
    lemma_part_within(r, sent + t2, t2);
}

proof fn lemma_sizes(s: Stats)
    ensures
        ({
            let b = size_lines(s);
            &&& within(
                b,
                figure_line(
                    "Number of regular files transferred: "@,
                    s.xferred_files as int,
                    "\n"@,
                ),
            )
            &&& within(b, figure_line("Total file size: "@, s.total_size as int, " bytes\n"@))
            &&& within(
                b,
                figure_line(
                    "Total transferred file size: "@,
                    s.total_transferred_size as int,
                    " bytes\n"@,
                ),
            )
            &&& within(b, figure_line("Literal data: "@, s.literal_data as int, " bytes\n"@))
            &&& within(b, figure_line("Matched data: "@, s.matched_data as int, " bytes\n"@))
        }),
{
    lemma_six(
        figure_line("Number of regular files transferred: "@, s.xferred_files as int, "\n"@),
        figure_line("Total file size: "@, s.total_size as int, " bytes\n"@),
        figure_line(
            "Total transferred file size: "@,
            s.total_transferred_size as int,
            " bytes\n"@,
        ),
        figure_line("Literal data: "@, s.literal_data as int, " bytes\n"@),
        figure_line("Matched data: "@, s.matched_data as int, " bytes\n"@),
        figure_line("File list size: "@, s.flist_size as int, "\n"@),
    );
}

proof fn lemma_six(
    l1: Seq<char>,
    l2: Seq<char>,
    l3: Seq<char>,
    l4: Seq<char>,
    l5: Seq<char>,
    l6: Seq<char>,
)
    ensures
        ({
            let b = l1 + l2 + l3 + l4 + l5 + l6;
            within(b, l1) && within(b, l2) && within(b, l3) && within(b, l4) && within(b, l5)
        }),
{
    lemma_itself(l1);
    lemma_itself(l2);
    lemma_itself(l3);
    lemma_itself(l4);
    lemma_itself(l5);
    lemma_wider(l1, l2, l1);
    lemma_wider(l2, l1, l2);
    let a2 = l1 + l2;
    lemma_wider(a2, l3, l1);
    lemma_wider(a2, l3, l2);
    lemma_wider(l3, a2, l3);
    let a3 = a2 + l3;
    lemma_wider(a3, l4, l1);
    lemma_wider(a3, l4, l2);
    lemma_wider(a3, l4, l3);
    lemma_wider(l4, a3, l4);
    let a4 = a3 + l4;
    lemma_wider(a4, l5, l1);
    lemma_wider(a4, l5, l2);
    lemma_wider(a4, l5, l3);
    lemma_wider(a4, l5, l4);
    lemma_wider(l5, a4, l5);
    let a5 = a4 + l5;
    lemma_wider(a5, l6, l1);
    lemma_wider(a5, l6, l2);
    lemma_wider(a5, l6, l3);
    lemma_wider(a5, l6, l4);
    lemma_wider(a5, l6, l5);
}

proof fn lemma_full_shape(
    a: Seq<char>,
    b: Seq<char>,
    c: Seq<char>,
    l7: Seq<char>,
    l8: Seq<char>,
    tail: Seq<char>,
)
    ensures
        ({
            let r = a + b + c + l7 + l8 + tail;
            within(r, a) && within(r, b) && within(r, l7) && within(r, l8)
        }),
{
    lemma_six(a, b, c, l7, l8, tail);
}

/// A full report ends with the short one, and says more.
pub proof fn full_report_ends_with_the_short_one(s: Stats, f: Figures, dry_run: bool)
    ensures
        ({
            let full = stats_lines(s, f, true, dry_run);
            let short = stats_lines(s, f, false, dry_run);
            let more = full.len() - short.len();
            more > 0 && full.skip(more) == short
        }),
{
    reveal_strlit("\n");
    let full = stats_lines(s, f, true, dry_run);
    let short = stats_lines(s, f, false, dry_run);
    let front = full_lines(s, f);
    assert(short =~= short_lines(s, f, dry_run));
    assert(front.len() > 0);
    assert(full.skip(front.len() as int) =~= short);
}

/// A full report says how many files were transferred and how large they are,
/// how much of them was sent and how much found, and how many bytes went either
/// way.
pub proof fn full_report_holds_the_figures(s: Stats, f: Figures, dry_run: bool)
    ensures
        ({
            let r = stats_lines(s, f, true, dry_run);
            &&& holds_part(r, "Literal data: "@ + big_text(s.literal_data as int) + " bytes\n"@)
            &&& holds_part(r, "Matched data: "@ + big_text(s.matched_data as int) + " bytes\n"@)
            &&& holds_part(r, "Total file size: "@ + big_text(s.total_size as int) + " bytes\n"@)
            &&& holds_part(r, "Total bytes sent: "@ + big_text(s.total_written as int) + "\n"@)
            &&& holds_part(r, "Total bytes received: "@ + big_text(s.total_read as int) + "\n"@)
            &&& holds_part(
                r,
                "Number of regular files transferred: "@ + big_text(s.xferred_files as int) + "\n"@,
            )
            &&& holds_part(
                r,
                "Total transferred file size: "@ + big_text(s.total_transferred_size as int)
                    + " bytes\n"@,
            )
        }),
{
    let r = stats_lines(s, f, true, dry_run);
    let b = size_lines(s);
    let l1 = figure_line("Number of regular files transferred: "@, s.xferred_files as int, "\n"@);
    let l2 = figure_line("Total file size: "@, s.total_size as int, " bytes\n"@);
    let l3 = figure_line(
        "Total transferred file size: "@,
        s.total_transferred_size as int,
        " bytes\n"@,
    );
    let l4 = figure_line("Literal data: "@, s.literal_data as int, " bytes\n"@);
    let l5 = figure_line("Matched data: "@, s.matched_data as int, " bytes\n"@);
    let l7 = figure_line("Total bytes sent: "@, s.total_written as int, "\n"@);
    let l8 = figure_line("Total bytes received: "@, s.total_read as int, "\n"@);
    lemma_full_shape(
        count_lines(s),
        b,
        time_lines(s, f),
        l7,
        l8,
        short_lines(s, f, dry_run),
    );
    assert(r == count_lines(s) + b + time_lines(s, f) + l7 + l8 + short_lines(s, f, dry_run));
    lemma_sizes(s);
    lemma_part_within(r, b, l1);
    lemma_part_within(r, b, l2);
    lemma_part_within(r, b, l3);
    lemma_part_within(r, b, l4);
    lemma_part_within(r, b, l5);
    lemma_within(r, l1);
    lemma_within(r, l2);
    lemma_within(r, l3);
    lemma_within(r, l4);
    lemma_within(r, l5);
    lemma_within(r, l7);
    lemma_within(r, l8);
}

/// A full report holds the counts of the files in the list, of those that were
/// created and of those that were deleted.
pub proof fn full_report_holds_the_counts(s: Stats, f: Figures, dry_run: bool)
    ensures
        ({
            let r = stats_lines(s, f, true, dry_run);
            &&& holds_part(r, counts_line("Number of files"@, listed_counts(s)))
            &&& holds_part(r, counts_line("Number of created files"@, created_counts(s)))
            &&& holds_part(r, counts_line("Number of deleted files"@, deleted_counts(s)))
        }),
{
    let r = stats_lines(s, f, true, dry_run);
    let a = count_lines(s);
    let l7 = figure_line("Total bytes sent: "@, s.total_written as int, "\n"@);
    let l8 = figure_line("Total bytes received: "@, s.total_read as int, "\n"@);
    lemma_full_shape(
        a,
        size_lines(s),
        time_lines(s, f),
        l7,
        l8,
        short_lines(s, f, dry_run),
    );
    assert(r == a + size_lines(s) + time_lines(s, f) + l7 + l8 + short_lines(s, f, dry_run));
    let c1 = counts_line("Number of files"@, listed_counts(s));
    let c2 = counts_line("Number of created files"@, created_counts(s));
    let c3 = counts_line("Number of deleted files"@, deleted_counts(s));
    let none = Seq::<char>::empty();
    lemma_six("\n"@, c1, c2, c3, none, none);
    assert("\n"@ + c1 + c2 + c3 + none + none =~= a);
    lemma_part_within(r, a, c1);
    lemma_part_within(r, a, c2);
    lemma_part_within(r, a, c3);
    lemma_within(r, c1);
    lemma_within(r, c2);
    lemma_within(r, c3);
}

// ---------------------------------------------------------------------------
// Messages and failures
// ---------------------------------------------------------------------------

/// Errors and warnings are always printed; a process that says more prints
/// whatever one that says less prints, and the more important a message is, the
/// sooner it is printed.
pub proof fn more_is_printed_at_higher_verbosity(level: LogLevel, less: i32, more: i32)
    requires
        less <= more,
    ensures
        prints(level, less) ==> prints(level, more),
        prints(LogLevel::Error, less) && prints(LogLevel::Warning, less),
        prints(LogLevel::Debug, less) ==> prints(LogLevel::Info, less),
        less <= 0 ==> !prints(LogLevel::Info, less),
        less == 1 ==> prints(LogLevel::Info, less) && !prints(LogLevel::Debug, less),
        more >= 2 ==> prints(LogLevel::Debug, more),
{
}

/// A printed line ends with its message, and all but information names who
/// speaks in front of it.
pub proof fn lines_end_with_their_message(level: LogLevel, who: Seq<char>, msg: Seq<char>)
    ensures
        ({
            let s = printed_line(level, who, msg);
            &&& s.len() >= msg.len()
            &&& s.skip(s.len() - msg.len()) == msg
            &&& level == LogLevel::Info ==> s == msg
            &&& level != LogLevel::Info ==> s.len() > who.len() + 1 && s[0] == '[' && s.subrange(
                1,
                who.len() as int + 1,
            ) == who && s[who.len() as int + 1] == ']'
            &&& level == LogLevel::Error ==> holds_part(s, "ERROR: "@ + msg)
            &&& level == LogLevel::Warning ==> holds_part(s, "WARNING: "@ + msg)
        }),
{
    reveal_strlit("[");
    reveal_strlit("] ERROR: ");
    reveal_strlit("] WARNING: ");
    reveal_strlit("] ");
    reveal_strlit("ERROR: ");
    reveal_strlit("WARNING: ");
    let s = printed_line(level, who, msg);
    assert(s.skip(s.len() - msg.len()) =~= msg);
    if level != LogLevel::Info {
        assert(s.subrange(1, who.len() as int + 1) =~= who);
    }
    let none = Seq::<char>::empty();
    let front = seq!['['] + who + seq![']', ' '];
    if level == LogLevel::Error {
        assert(s =~= front + ("ERROR: "@ + msg) + none);
        lemma_part(front, "ERROR: "@ + msg, none);
    }
    if level == LogLevel::Warning {
        assert(s =~= front + ("WARNING: "@ + msg) + none);
        lemma_part(front, "WARNING: "@ + msg, none);
    }
}

/// A failure is told by the words in its description, in upper or lower case:
/// trouble with the protocol comes before trouble with the connection, and that
/// before all others; what names nothing known is trouble with files.
pub proof fn failures_are_told_by_their_words(a: Seq<char>, b: Seq<char>, message: Seq<char>)
    ensures
        exit_code_of(lower(message)) == exit_code_of(message),
        exit_code_of(a + "protocol"@ + b) == ExitCode::Protocol,
        exit_code_of(a + "handshake"@ + b) == ExitCode::Protocol,
        ({
            let c = exit_code_of(a + "connection"@ + b);
            c == ExitCode::Protocol || c == ExitCode::SocketIo
        }),
        ({
            let c = exit_code_of(a + "permission denied"@ + b);
            c == ExitCode::Protocol || c == ExitCode::SocketIo || c == ExitCode::FileIo
        }),
        exit_code_of(message) == ExitCode::Timeout ==> holds_part(lower(message), "timeout"@),
        exit_code_of(message) == ExitCode::Partial ==> holds_part(lower(message), "partial"@),
        exit_code_of(message) == ExitCode::Vanished ==> holds_part(lower(message), "vanished"@),
        exit_code_of(message) != ExitCode::Success,
{
    lemma_lower_twice(message);
    lemma_lower_part(a, "protocol"@, b);
    lemma_lower_part(a, "handshake"@, b);
    lemma_lower_part(a, "connection"@, b);
    lemma_lower_part(a, "permission denied"@, b);
    reveal_strlit("protocol");
    reveal_strlit("handshake");
    reveal_strlit("connection");
    reveal_strlit("permission denied");
    assert(lower("protocol"@) =~= "protocol"@);
    assert(lower("handshake"@) =~= "handshake"@);
    assert(lower("connection"@) =~= "connection"@);
    assert(lower("permission denied"@) =~= "permission denied"@);
}

proof fn lemma_lower_twice(s: Seq<char>)
    ensures
        lower(lower(s)) == lower(s),
{
    assert(lower(lower(s)) =~= lower(s));
}

proof fn lemma_lower_part(a: Seq<char>, part: Seq<char>, b: Seq<char>)
    ensures
        holds_part(lower(a + part + b), lower(part)),
{
    assert(lower(a + part + b) =~= lower(a) + lower(part) + lower(b));
    lemma_part(lower(a), lower(part), lower(b));
}

/// Only success has the number zero, and each number fits a process's status.
pub proof fn only_success_is_zero(code: ExitCode)
    ensures
        (code.number() == 0) == (code == ExitCode::Success),
        0 <= code.number() <= 0xff,
{
}

// ---------------------------------------------------------------------------
// Deletion
// ---------------------------------------------------------------------------

/// What stays is never removed, and what does not stay always is, whatever it
/// is; only a directory that stays is looked into.
pub proof fn only_what_does_not_stay_is_removed(kept: bool, is_dir: bool, is_symlink: bool)
    ensures
        ({
            let a = dealt_with(kept, is_dir, is_symlink);
            &&& kept == (a == DeleteAction::Keep || a == DeleteAction::Descend)
            &&& (a == DeleteAction::Descend) == (kept && is_dir)
            &&& (a == DeleteAction::RemoveDir) == (!kept && is_dir)
            &&& a == DeleteAction::RemoveSymlink ==> is_symlink
            &&& a == DeleteAction::RemoveFile ==> !is_symlink && !is_dir
        }),
{
}

/// Each removal is counted once, by its kind, and nothing else is counted.
pub proof fn removals_are_counted(s: Stats, a: DeleteAction)
    requires
        0 <= s.deleted_dirs < i32::MAX,
        0 <= s.deleted_symlinks < i32::MAX,
        0 <= s.deleted_files < i32::MAX,
    ensures
        ({
            let t = deletion_counted(s, a);
            let removed: int = if a == DeleteAction::Keep || a == DeleteAction::Descend {
                0
            } else {
                1
            };
            &&& t.deleted_dirs + t.deleted_symlinks + t.deleted_files == s.deleted_dirs
                + s.deleted_symlinks + s.deleted_files + removed
            &&& t.deleted_dirs >= s.deleted_dirs && t.deleted_symlinks >= s.deleted_symlinks
                && t.deleted_files >= s.deleted_files
            &&& t.deleted_dirs > s.deleted_dirs ==> a == DeleteAction::RemoveDir
            &&& t.deleted_symlinks > s.deleted_symlinks ==> a == DeleteAction::RemoveSymlink
            &&& t.deleted_files > s.deleted_files ==> a == DeleteAction::RemoveFile
            &&& t.num_files == s.num_files && t.created_files == s.created_files && t.xferred_files
                == s.xferred_files && t.total_size == s.total_size
        }),
{
}

/// A file of the list stays, and so does each directory that it lies in: for
/// a path of several names, each path of its first names.
pub proof fn directories_of_listed_files_stay(
    fs: Seq<FileEntry>,
    i: int,
    names: Seq<Seq<char>>,
    k: int,
)
    requires
        0 <= i < fs.len(),
        0 < k <= names.len(),
        forall|j: int| 0 <= j < names.len() ==> can_be_name(#[trigger] names[j]),
        fs[i].path() == slashed(names),
        !says_nothing(slashed(names)),
    ensures
        stays(staying(fs), slashed(names.take(k))),
{
    let some = names.take(k);
    assert forall|j: int| 0 <= j < some.len() implies can_be_name(#[trigger] some[j]) by {
        assert(can_be_name(names[j]));
    }
    path_is_taken_apart(names);
    path_is_taken_apart(some);
    assert(is_front(components(slashed(some)), components(slashed(names))));
    crate::delete::listed_files_stay(fs, i, slashed(some));
}

/// What is neither in the list nor a directory on the way to a file of the list
/// goes: of each path that stays, the names are the first of those of a path in
/// the list.
pub proof fn what_is_not_listed_goes(fs: Seq<FileEntry>, names: Seq<Seq<char>>)
    requires
        names.len() > 0,
        forall|j: int| 0 <= j < names.len() ==> can_be_name(#[trigger] names[j]),
        forall|i: int|
            0 <= i < fs.len() ==> !(components((#[trigger] fs[i]).path()).len() >= names.len()
                && components(fs[i].path()).take(names.len() as int) == names),
    ensures
        !stays(staying(fs), slashed(names)),
{
    path_is_taken_apart(names);
    if stays(staying(fs), slashed(names)) {
        crate::delete::only_listed_files_stay(fs, slashed(names));
        let i = choose|i: int|
            0 <= i < fs.len() && is_front(
                components(slashed(names)),
                components((#[trigger] fs[i]).path()),
            );
        assert(components(fs[i].path()).take(names.len() as int) =~= names);
    }
}

} // verus!
