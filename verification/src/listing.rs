//! Files in a listing: modes, sizes and times as text.

use vstd::prelude::*;

use crate::flags::{flag_set, has_bit};
use crate::protocol::types::Stats;
use crate::text::{chars_of, decimal, push_decimal};
use crate::util::{big_num, big_text};

verus! {

// ---------------------------------------------------------------------------
// Dates
// ---------------------------------------------------------------------------

/// Whether a year has a 29 February.
pub open spec fn is_leap(y: int) -> bool {
    y % 4 == 0 && (y % 100 != 0 || y % 400 == 0)
}

/// How many days a year has.
pub open spec fn year_days(y: int) -> int {
    if is_leap(y) {
        366
    } else {
        365
    }
}

/// How many days a month has.
pub open spec fn month_days(y: int, m: int) -> int {
    if m == 2 {
        if is_leap(y) {
            29
        } else {
            28
        }
    } else if m == 4 || m == 6 || m == 9 || m == 11 {
        30
    } else {
        31
    }
}

/// How many days of a year are before a month.
pub open spec fn days_before_month(y: int, m: int) -> int
    decreases m,
{
    if m <= 1 {
        0
    } else {
        days_before_month(y, m - 1) + month_days(y, m - 1)
    }
}

/// How many days are between the start of 1970 and the start of a year.
pub open spec fn days_before_year(y: int) -> int
    decreases y,
{
    if y <= 1970 {
        0
    } else {
        days_before_year(y - 1) + year_days(y - 1)
    }
}

/// Whether the day `d` of month `m` of year `y` is `days` days after the
/// start of 1970.
pub open spec fn is_date(days: int, y: int, m: int, d: int) -> bool {
    &&& 1970 <= y
    &&& 1 <= m <= 12
    &&& 1 <= d <= month_days(y, m)
    &&& days == days_before_year(y) + days_before_month(y, m) + d - 1
}

/// How many days are between the start of year 1 and the start of the year
/// behind `n` years.
spec fn days_of_years(n: int) -> int {
    365 * n + n / 4 - n / 100 + n / 400
}

proof fn lemma_days_before_year(y: int)
    requires
        1970 <= y,
    ensures
        days_before_year(y) == days_of_years(y - 1) - 719162,
    decreases y,
{
    if y > 1970 {
        lemma_days_before_year(y - 1);
        let n = y - 1;
        assert(n / 4 - (n - 1) / 4 == if n % 4 == 0 {
            1int
        } else {
            0
        });
        assert(n / 100 - (n - 1) / 100 == if n % 100 == 0 {
            1int
        } else {
            0
        });
        assert(n / 400 - (n - 1) / 400 == if n % 400 == 0 {
            1int
        } else {
            0
        });
    }
}

proof fn lemma_cycle(a: int, b: int, c: int, e: int)
    requires
        0 <= a,
        0 <= b <= 3,
        0 <= c <= 24,
        0 <= e <= 3,
    ensures
        days_of_years(400 * a + 100 * b + 4 * c + e) == 146097 * a + 36524 * b + 1461 * c + 365 * e,
{
    let n = 400 * a + 100 * b + 4 * c + e;
    assert(n / 4 == 100 * a + 25 * b + c);
    assert(n / 100 == 4 * a + b);
    assert(n / 400 == a);
}

/// The year of a day, and how many of its days are before it.
fn year_of(days: u64) -> (res: (u64, u64))
    requires
        days <= 0x1000_0000_0000_0000,
    ensures
        1970 <= res.0,
        res.1 < year_days(res.0 as int),
        days == days_before_year(res.0 as int) + res.1,
{
    let n: u64 = days + 719162;
    let a: u64 = n / 146097;
    let r: u64 = n % 146097;
    let b: u64 = if r / 36524 < 3 {
        r / 36524
    } else {
        3
    };
    let r2: u64 = r - b * 36524;
    let c: u64 = r2 / 1461;
    let r3: u64 = r2 % 1461;
    let e: u64 = if r3 / 365 < 3 {
        r3 / 365
    } else {
        3
    };
    let left: u64 = r3 - e * 365;
    let before: u64 = 400 * a + 100 * b + 4 * c + e;
    let y: u64 = before + 1;
    proof {
        assert(c <= 24);
        lemma_cycle(a as int, b as int, c as int, e as int);
        assert(n == days_of_years(before as int) + left);
        assert(left <= 365);
        if left == 365 {
            assert(e == 3);
            assert(y as int % 4 == 0);
            if c == 24 {
                assert(b == 3);
                assert(y as int == 400 * (a as int + 1));
                assert(y as int % 400 == 0);
            } else {
                assert(y as int % 100 != 0);
            }
            assert(is_leap(y as int));
        }
        if y < 1970 {
            lemma_years_grow(before as int, 1969);
            assert(days_of_years(1969) == 719162);
            assert(left < year_days(y as int));
            lemma_next_year(before as int);
            lemma_years_grow(before as int + 1, 1969);
        }
        lemma_days_before_year(y as int);
    }
    (y, left)
}

proof fn lemma_next_year(n: int)
    requires
        0 <= n,
    ensures
        days_of_years(n + 1) == days_of_years(n) + year_days(n + 1),
{
    let m = n + 1;
    assert(m / 4 - n / 4 == if m % 4 == 0 {
        1int
    } else {
        0
    });
    assert(m / 100 - n / 100 == if m % 100 == 0 {
        1int
    } else {
        0
    });
    assert(m / 400 - n / 400 == if m % 400 == 0 {
        1int
    } else {
        0
    });
}

proof fn lemma_years_grow(a: int, b: int)
    requires
        0 <= a <= b,
    ensures
        days_of_years(a) <= days_of_years(b),
    decreases b - a,
{
    if a < b {
        lemma_next_year(a);
        lemma_years_grow(a + 1, b);
    }
}

fn days_in_month(y: u64, m: u64) -> (n: u64)
    ensures
        n == month_days(y as int, m as int),
{
    if m == 2 {
        if y % 4 == 0 && (y % 100 != 0 || y % 400 == 0) {
            29
        } else {
            28
        }
    } else if m == 4 || m == 6 || m == 9 || m == 11 {
        30
    } else {
        31
    }
}

proof fn lemma_twelve_months(y: int)
    ensures
        days_before_month(y, 13) == year_days(y),
{
    reveal_with_fuel(days_before_month, 13);
}

/// The date of a day, counted from the start of 1970.
pub fn date_of(days: u64) -> (res: (u64, u64, u64))
    requires
        days <= 0x1000_0000_0000_0000,
    ensures
        is_date(days as int, res.0 as int, res.1 as int, res.2 as int),
{
    let (y, day) = year_of(days);
    let mut m: u64 = 1;
    let mut left: u64 = day;
    while m < 12 && left >= days_in_month(y, m)
        invariant
            1 <= m <= 12,
            day == days_before_month(y as int, m as int) + left,
        decreases 12 - m,
    {
        left = left - days_in_month(y, m);
        m = m + 1;
    }
    proof {
        lemma_twelve_months(y as int);
    }
    (y, m, left + 1)
}

proof fn lemma_months_grow(y: int, a: int, b: int)
    requires
        1 <= a < b <= 13,
    ensures
        days_before_month(y, a) + month_days(y, a) <= days_before_month(y, b),
    decreases b - a,
{
    if a + 1 < b {
        lemma_months_grow(y, a, b - 1);
    }
}

proof fn lemma_year_start(a: int, b: int)
    requires
        1970 <= a < b,
    ensures
        days_before_year(a) + year_days(a) <= days_before_year(b),
    decreases b - a,
{
    if a + 1 < b {
        lemma_year_start(a, b - 1);
    }
}

/// A day has one date only.
pub proof fn dates_are_unique(
    days: int,
    y1: int,
    m1: int,
    d1: int,
    y2: int,
    m2: int,
    d2: int,
)
    requires
        is_date(days, y1, m1, d1),
        is_date(days, y2, m2, d2),
    ensures
        y1 == y2 && m1 == m2 && d1 == d2,
{
    lemma_twelve_months(y1);
    lemma_twelve_months(y2);
    lemma_months_grow(y1, m1, 13);
    lemma_months_grow(y2, m2, 13);
    lemma_before_month_positive(y1, m1);
    lemma_before_month_positive(y2, m2);
    if y1 < y2 {
        lemma_year_start(y1, y2);
    } else if y2 < y1 {
        lemma_year_start(y2, y1);
    } else if m1 < m2 {
        lemma_months_grow(y1, m1, m2);
    } else if m2 < m1 {
        lemma_months_grow(y1, m2, m1);
    }
}

proof fn lemma_before_month_positive(y: int, m: int)
    ensures
        days_before_month(y, m) >= 0,
    decreases m,
{
    if m > 1 {
        lemma_before_month_positive(y, m - 1);
    }
}

// ---------------------------------------------------------------------------
// Lines
// ---------------------------------------------------------------------------

/// `s` with `c` in front of it up to a width.
pub open spec fn filled(s: Seq<char>, c: char, width: nat) -> Seq<char> {
    if s.len() >= width {
        s
    } else {
        Seq::new((width - s.len()) as nat, |i: int| c) + s
    }
}

fn push_filled(out: &mut String, s: &str, c: char, width: usize)
    ensures
        final(out)@ == old(out)@ + filled(s@, c, width as nat),
{
    let n: usize = chars_of(s).len();
    let ghost start = out@;
    if n < width {
        let mut i: usize = n;
        assert(out@ =~= start + Seq::new(0, |k: int| c));
        while i < width
            invariant
                n <= i <= width,
                out@ == start + Seq::new((i - n) as nat, |k: int| c),
            decreases width - i,
        {
            out.push(c);
            i = i + 1;
            assert(out@ =~= start + Seq::new((i - n) as nat, |k: int| c));
        }
    }
    out.push_str(s);
    assert(out@ =~= start + filled(s@, c, width as nat));
}

fn push_number(out: &mut String, n: u64, width: usize)
    ensures
        final(out)@ == old(out)@ + filled(decimal(n as nat), '0', width as nat),
{
    let mut s: String = String::new();
    push_decimal(&mut s, n);
    assert(s@ =~= decimal(n as nat));
    push_filled(out, s.as_str(), '0', width);
}

/// A date and a time of day as text.
pub open spec fn stamp(y: int, m: int, d: int, second: int) -> Seq<char> {
    Seq::empty() + filled(decimal(y as nat), '0', 4) + "/"@ + filled(decimal(m as nat), '0', 2) + "/"@
        + filled(decimal(d as nat), '0', 2) + " "@ + filled(decimal((second / 3600) as nat), '0', 2)
        + ":"@ + filled(decimal((second / 60 % 60) as nat), '0', 2) + ":"@ + filled(
        decimal((second % 60) as nat),
        '0',
        2,
    )
}

/// Seconds since 1970; a time before counts as the start of 1970.
pub open spec fn since_1970(secs: i64) -> int {
    if secs < 0 {
        0
    } else {
        secs as int
    }
}

/// The day of a time.
pub open spec fn day_of(secs: i64) -> int {
    since_1970(secs) / 86400
}

/// Whether `s` is a time as text.
pub open spec fn is_stamp(secs: i64, s: Seq<char>) -> bool {
    exists|y: int, m: int, d: int|
        #[trigger] is_date(day_of(secs), y, m, d) && s == stamp(
            y,
            m,
            d,
            since_1970(secs) % 86400,
        )
}

/// Writes a time as `YYYY/MM/DD HH:MM:SS`.
pub fn fmt_ts(secs: i64) -> (s: String)
    ensures
        is_stamp(secs, s@),
{
    let t: u64 = if secs < 0 {
        0
    } else {
        secs as u64
    };
    let second: u64 = t % 86400;
    let (y, m, d) = date_of(t / 86400);
    let mut s: String = String::new();
    push_number(&mut s, y, 4);
    s.push_str("/");
    push_number(&mut s, m, 2);
    s.push_str("/");
    push_number(&mut s, d, 2);
    s.push_str(" ");
    push_number(&mut s, second / 3600, 2);
    s.push_str(":");
    push_number(&mut s, second / 60 % 60, 2);
    s.push_str(":");
    push_number(&mut s, second % 60, 2);
    assert(s@ == stamp(y as int, m as int, d as int, second as int));
    assert(is_date(day_of(secs), y as int, m as int, d as int));
    s
}

/// A letter where a bit of the mode is set, and a dash otherwise.
pub open spec fn mode_char(mode: u32, bit: u32, c: char) -> char {
    if flag_set(mode, bit) {
        c
    } else {
        '-'
    }
}

/// A mode as text: the kind of file and nine permissions.
pub open spec fn mode_text(mode: u32, is_dir: bool, is_link: bool) -> Seq<char> {
    seq![
        if is_link {
            'l'
        } else if is_dir {
            'd'
        } else {
            '-'
        },
        mode_char(mode, 0x100, 'r'),
        mode_char(mode, 0x80, 'w'),
        mode_char(mode, 0x40, 'x'),
        mode_char(mode, 0x20, 'r'),
        mode_char(mode, 0x10, 'w'),
        mode_char(mode, 0x8, 'x'),
        mode_char(mode, 0x4, 'r'),
        mode_char(mode, 0x2, 'w'),
        mode_char(mode, 0x1, 'x'),
    ]
}

fn push_mode_char(s: &mut String, mode: u32, bit: u32, c: char)
    requires
        bit > 0,
    ensures
        final(s)@ == old(s)@.push(mode_char(mode, bit, c)),
{
    if has_bit(mode, bit) {
        s.push(c);
    } else {
        s.push('-');
    }
}

/// Writes a mode.
pub fn fmt_mode(mode: u32, is_dir: bool, is_link: bool) -> (s: String)
    ensures
        s@ == mode_text(mode, is_dir, is_link),
{
    let mut s: String = String::new();
    s.push(
        if is_link {
            'l'
        } else if is_dir {
            'd'
        } else {
            '-'
        },
    );
    push_mode_char(&mut s, mode, 0x100, 'r');
    push_mode_char(&mut s, mode, 0x80, 'w');
    push_mode_char(&mut s, mode, 0x40, 'x');
    push_mode_char(&mut s, mode, 0x20, 'r');
    push_mode_char(&mut s, mode, 0x10, 'w');
    push_mode_char(&mut s, mode, 0x8, 'x');
    push_mode_char(&mut s, mode, 0x4, 'r');
    push_mode_char(&mut s, mode, 0x2, 'w');
    push_mode_char(&mut s, mode, 0x1, 'x');
    assert(s@ =~= mode_text(mode, is_dir, is_link));
    s
}

/// What a listing shows of a file.
#[derive(Debug)]
pub struct Listed {
    pub mode: u32,
    pub is_dir: bool,
    pub is_symlink: bool,
    pub size: i64,
    pub mtime: i64,
}

/// A line of a listing, given the time as text.
pub open spec fn list_row(f: Listed, ts: Seq<char>, rel: Seq<char>) -> Seq<char> {
    mode_text(f.mode, f.is_dir, f.is_symlink) + " "@ + filled(big_text(f.size as int), ' ', 14)
        + " "@ + ts + " "@ + rel + if f.is_dir {
        "/"@
    } else {
        Seq::empty()
    }
}

/// Writes a line of a listing: the mode, the size, the time, and the path,
/// with a slash behind that of a directory.
pub fn list_line(f: &Listed, rel: &str) -> (s: String)
    ensures
        exists|ts: Seq<char>|
            #[trigger] is_stamp(f.mtime, ts) && s@ == list_row(*f, ts, rel@),
        exists|ts: Seq<char>|
            #[trigger] is_stamp(f.mtime, ts) && s@ == mode_text(f.mode, f.is_dir, f.is_symlink)
                + " "@ + filled(big_text(f.size as int), ' ', 14) + " "@ + ts + " "@ + rel@
                + if f.is_dir {
                "/"@
            } else {
                Seq::empty()
            },
{
    let mut s: String = fmt_mode(f.mode, f.is_dir, f.is_symlink);
    s.push_str(" ");
    let size: String = big_num(f.size);
    push_filled(&mut s, size.as_str(), ' ', 14);
    s.push_str(" ");
    let ts: String = fmt_ts(f.mtime);
    s.push_str(ts.as_str());
    s.push_str(" ");
    s.push_str(rel);
    if f.is_dir {
        s.push_str("/");
    }
    assert(is_stamp(f.mtime, ts@));
    assert(s@ =~= mode_text(f.mode, f.is_dir, f.is_symlink) + " "@ + filled(
        big_text(f.size as int),
        ' ',
        14,
    ) + " "@ + ts@ + " "@ + rel@ + if f.is_dir {
        "/"@
    } else {
        Seq::empty()
    });
    s
}

/// The counters after a file was listed.
pub open spec fn listed_counted(s: Stats, f: Listed) -> Stats {
    if f.is_dir {
        Stats { num_dirs: (s.num_dirs + 1) as i32, ..s }
    } else if f.is_symlink {
        Stats { num_symlinks: (s.num_symlinks + 1) as i32, ..s }
    } else {
        Stats {
            num_files: (s.num_files + 1) as i32,
            total_size: (s.total_size + f.size) as i64,
            ..s
        }
    }
}

/// Counts a file that was listed.
pub fn count_listed(stats: &mut Stats, f: &Listed)
    requires
        old(stats).num_dirs < i32::MAX,
        old(stats).num_symlinks < i32::MAX,
        old(stats).num_files < i32::MAX,
        i64::MIN <= old(stats).total_size + f.size <= i64::MAX,
    ensures
        *final(stats) == listed_counted(*old(stats), *f),
{
    if f.is_dir {
        stats.num_dirs = stats.num_dirs + 1;
    } else if f.is_symlink {
        stats.num_symlinks = stats.num_symlinks + 1;
    } else {
        stats.num_files = stats.num_files + 1;
        stats.total_size = stats.total_size + f.size;
    }
}

} // verus!
