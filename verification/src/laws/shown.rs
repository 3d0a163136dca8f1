//! What people are shown says what is so.

use vstd::prelude::*;

use crate::listing::{
    day_of, days_before_month, days_before_year, filled, is_date, is_leap, is_stamp, mode_text,
    month_days, since_1970, stamp, year_days,
};
use crate::progress::{clock, two_digits};
use crate::text::{decimal, digit};
use crate::util::{big_text, grouped, three_digits};

verus! {

// ---------------------------------------------------------------------------
// Modes
// ---------------------------------------------------------------------------

/// The letter of a permission, by its place behind the kind of file.
pub open spec fn permission_letter(k: int) -> char {
    if k % 3 == 1 {
        'r'
    } else if k % 3 == 2 {
        'w'
    } else {
        'x'
    }
}

/// The letter at place `k` of a mode's text is a dash exactly where bit
/// `9 - k` of the mode is clear, and the letter of the permission otherwise.
pub proof fn mode_letter_tells_bit(mode: u32, is_dir: bool, is_link: bool, k: u32)
    requires
        1 <= k <= 9,
    ensures
        mode_text(mode, is_dir, is_link).len() == 10,
        (mode >> ((9 - k) as u32)) & 1 == 0 ==> mode_text(mode, is_dir, is_link)[k as int] == '-',
        (mode >> ((9 - k) as u32)) & 1 == 1 ==> mode_text(mode, is_dir, is_link)[k as int]
            == permission_letter(k as int),
        (mode >> ((9 - k) as u32)) & 1 <= 1,
{
    let b = (9 - k) as u32;
    assert((mode >> b) & 1 <= 1) by (bit_vector);
    assert((mode >> 8) & 1 == (mode / 0x100) % 2 && (mode >> 7) & 1 == (mode / 0x80) % 2 && (mode
        >> 6) & 1 == (mode / 0x40) % 2 && (mode >> 5) & 1 == (mode / 0x20) % 2 && (mode >> 4) & 1
        == (mode / 0x10) % 2 && (mode >> 3) & 1 == (mode / 8) % 2 && (mode >> 2) & 1 == (mode / 4)
        % 2 && (mode >> 1) & 1 == (mode / 2) % 2 && (mode >> 0) & 1 == (mode / 1) % 2)
        by (bit_vector);
}

/// Two modes with the same text have the same nine permissions, and are those
/// of the same kind of file.
pub proof fn mode_text_tells_mode(
    a: u32,
    a_dir: bool,
    a_link: bool,
    b: u32,
    b_dir: bool,
    b_link: bool,
)
    requires
        mode_text(a, a_dir, a_link) == mode_text(b, b_dir, b_link),
    ensures
        a & 0o777 == b & 0o777,
        a_link == b_link,
        !a_link ==> a_dir == b_dir,
{
    let s = mode_text(a, a_dir, a_link);
    let t = mode_text(b, b_dir, b_link);
    assert(s[0] == t[0]);
    assert forall|k: u32| 1 <= k <= 9 implies #[trigger] ((a >> ((9 - k) as u32)) & 1) == ((b >> ((9
        - k) as u32)) & 1) by {
        mode_letter_tells_bit(a, a_dir, a_link, k);
        mode_letter_tells_bit(b, b_dir, b_link, k);
        assert(s[k as int] == t[k as int]);
    }
    assert(((a >> ((9 - 1u32) as u32)) & 1) == ((b >> ((9 - 1u32) as u32)) & 1));
    assert(((a >> ((9 - 2u32) as u32)) & 1) == ((b >> ((9 - 2u32) as u32)) & 1));
    assert(((a >> ((9 - 3u32) as u32)) & 1) == ((b >> ((9 - 3u32) as u32)) & 1));
    assert(((a >> ((9 - 4u32) as u32)) & 1) == ((b >> ((9 - 4u32) as u32)) & 1));
    assert(((a >> ((9 - 5u32) as u32)) & 1) == ((b >> ((9 - 5u32) as u32)) & 1));
    assert(((a >> ((9 - 6u32) as u32)) & 1) == ((b >> ((9 - 6u32) as u32)) & 1));
    assert(((a >> ((9 - 7u32) as u32)) & 1) == ((b >> ((9 - 7u32) as u32)) & 1));
    assert(((a >> ((9 - 8u32) as u32)) & 1) == ((b >> ((9 - 8u32) as u32)) & 1));
    assert(((a >> ((9 - 9u32) as u32)) & 1) == ((b >> ((9 - 9u32) as u32)) & 1));
    assert(a & 0o777 == b & 0o777) by (bit_vector)
        requires
            ((a >> 8) & 1) == ((b >> 8) & 1),
            ((a >> 7) & 1) == ((b >> 7) & 1),
            ((a >> 6) & 1) == ((b >> 6) & 1),
            ((a >> 5) & 1) == ((b >> 5) & 1),
            ((a >> 4) & 1) == ((b >> 4) & 1),
            ((a >> 3) & 1) == ((b >> 3) & 1),
            ((a >> 2) & 1) == ((b >> 2) & 1),
            ((a >> 1) & 1) == ((b >> 1) & 1),
            ((a >> 0) & 1) == ((b >> 0) & 1),
    ;
}

/// A link is shown as one whatever else is said of it, a directory as one
/// unless it is a link, and nothing else as either.
pub proof fn kind_letter_comes_first(mode: u32, is_dir: bool, is_link: bool)
    ensures
        (mode_text(mode, is_dir, is_link)[0] == 'l') == is_link,
        (mode_text(mode, is_dir, is_link)[0] == 'd') == (is_dir && !is_link),
        (mode_text(mode, is_dir, is_link)[0] == '-') == (!is_dir && !is_link),
{
}

// ---------------------------------------------------------------------------
// Numbers
// ---------------------------------------------------------------------------

/// The number that a text stands for, read digit by digit from the left, with
/// commas passed over.
pub open spec fn digits_value(s: Seq<char>) -> int
    decreases s.len(),
{
    if s.len() == 0 {
        0
    } else if s.last() == ',' {
        digits_value(s.drop_last())
    } else {
        digits_value(s.drop_last()) * 10 + (s.last() as int - '0' as int)
    }
}

/// Whether a text holds digits only.
pub open spec fn only_digits(s: Seq<char>) -> bool {
    forall|i: int| 0 <= i < s.len() ==> '0' <= #[trigger] s[i] <= '9'
}

proof fn lemma_digit(d: nat)
    requires
        d < 10,
    ensures
        '0' <= digit(d) <= '9',
        digit(d) as int - '0' as int == d,
{
}

/// A number that is written in decimal is read back from its digits.
pub proof fn decimal_is_read_back(n: nat)
    ensures
        digits_value(decimal(n)) == n,
        only_digits(decimal(n)),
        decimal(n).len() > 0,
        n > 0 ==> decimal(n)[0] != '0',
    decreases n,
{
    reveal_with_fuel(digits_value, 2);
    let s = decimal(n);
    if n < 10 {
        lemma_digit(n);
        assert(s.drop_last() =~= Seq::<char>::empty());
    } else {
        decimal_is_read_back(n / 10);
        lemma_digit(n % 10);
        assert(s.drop_last() =~= decimal(n / 10));
    }
}

proof fn lemma_three_digits(head: Seq<char>, k: nat)
    requires
        k < 1000,
    ensures
        digits_value(head + three_digits(k)) == digits_value(head) * 1000 + k,
{
    let a = k / 100;
    let b = k / 10 % 10;
    let c = k % 10;
    lemma_digit(a);
    lemma_digit(b);
    lemma_digit(c);
    let s = head + three_digits(k);
    let t = head.push(digit(a)).push(digit(b));
    let u = head.push(digit(a));
    assert(s.drop_last() =~= t);
    assert(t.drop_last() =~= u);
    assert(u.drop_last() =~= head);
    assert(digits_value(s) == digits_value(t) * 10 + c);
    assert(digits_value(t) == digits_value(u) * 10 + b);
    assert(digits_value(u) == digits_value(head) * 10 + a);
}

proof fn lemma_small_decimal(n: nat)
    requires
        n < 1000,
    ensures
        decimal(n).len() <= 3,
{
    reveal_with_fuel(decimal, 4);
}

/// A number that is written in groups is read back from its digits, and there
/// is a comma before each group of three digits, counted from the end, and
/// nowhere else.
pub proof fn grouped_is_read_back(n: nat)
    ensures
        digits_value(grouped(n)) == n,
        grouped(n).len() > 0,
        forall|i: int|
            0 <= i < grouped(n).len() ==> (grouped(n)[#[trigger] (grouped(n).len() - 1 - i)] == ',')
                == (i % 4 == 3),
        grouped(n)[0] != ',',
    decreases n,
{
    let s = grouped(n);
    if n < 1000 {
        decimal_is_read_back(n);
        lemma_small_decimal(n);
    } else {
        let a = grouped(n / 1000);
        let k = n % 1000;
        grouped_is_read_back(n / 1000);
        let head = a.push(',');
        assert(s =~= head + three_digits(k));
        assert(head.drop_last() =~= a);
        lemma_three_digits(head, k);
        lemma_digit(k / 100);
        lemma_digit(k / 10 % 10);
        lemma_digit(k % 10);
        assert forall|i: int| 0 <= i < s.len() implies (s[#[trigger] (s.len() - 1 - i)] == ',') == (i
            % 4 == 3) by {
            if i >= 4 {
                let j = i - 4;
                assert(s[s.len() - 1 - i] == a[a.len() - 1 - j]);
            }
        }
        assert(s[0] == a[0]);
    }
}

/// A number with its sign is read back.
pub proof fn big_text_is_read_back(n: int)
    ensures
        n >= 0 ==> digits_value(big_text(n)) == n && big_text(n)[0] != '-',
        n < 0 ==> big_text(n)[0] == '-' && digits_value(big_text(n).skip(1)) == -n,
{
    if n < 0 {
        grouped_is_read_back((-n) as nat);
        assert(big_text(n).skip(1) =~= grouped((-n) as nat));
    } else {
        grouped_is_read_back(n as nat);
        let s = grouped(n as nat);
        if n < 1000 {
            decimal_is_read_back(n as nat);
            assert('0' <= s[0] <= '9');
        } else {
            lemma_grouped_first(n as nat);
        }
    }
}

proof fn lemma_grouped_first(n: nat)
    ensures
        grouped(n).len() > 0,
        '0' <= grouped(n)[0] <= '9',
    decreases n,
{
    if n < 1000 {
        decimal_is_read_back(n);
        assert('0' <= decimal(n)[0] <= '9');
    } else {
        lemma_grouped_first(n / 1000);
    }
}

// ---------------------------------------------------------------------------
// Times
// ---------------------------------------------------------------------------

proof fn lemma_two_digits(n: nat)
    requires
        n < 100,
    ensures
        two_digits(n).len() == 2,
        digits_value(two_digits(n)) == n,
{
    let s = two_digits(n);
    lemma_digit(n / 10);
    lemma_digit(n % 10);
    assert(s.drop_last() =~= seq![digit(n / 10)]);
    assert(seq![digit(n / 10)].drop_last() =~= Seq::<char>::empty());
    reveal_with_fuel(digits_value, 3);
}

/// The hours, minutes and seconds of a clock add up to the time, and minutes
/// and seconds are below sixty.
pub proof fn clock_adds_up(secs: nat)
    ensures
        ({
            let s = clock(secs);
            let n = s.len() as int;
            let h = digits_value(s.take(n - 6));
            let m = digits_value(s.subrange(n - 5, n - 3));
            let t = digits_value(s.subrange(n - 2, n));
            &&& n >= 7
            &&& s[n - 6] == ':'
            &&& s[n - 3] == ':'
            &&& h * 3600 + m * 60 + t == secs
            &&& 0 <= m < 60
            &&& 0 <= t < 60
        }),
{
    reveal_strlit(":");
    let s = clock(secs);
    let n = s.len() as int;
    decimal_is_read_back(secs / 3600);
    lemma_two_digits(secs % 3600 / 60);
    lemma_two_digits(secs % 60);
    assert(s.take(n - 6) =~= decimal(secs / 3600));
    assert(s.subrange(n - 5, n - 3) =~= two_digits(secs % 3600 / 60));
    assert(s.subrange(n - 2, n) =~= two_digits(secs % 60));
}

proof fn lemma_zeros(k: nat, s: Seq<char>)
    ensures
        digits_value(Seq::new(k, |i: int| '0') + s) == digits_value(s),
    decreases s.len(), k,
{
    let z = Seq::new(k, |i: int| '0');
    let all = z + s;
    if s.len() > 0 {
        lemma_zeros(k, s.drop_last());
        assert(all.drop_last() =~= z + s.drop_last());
    } else if k > 0 {
        let y = Seq::new((k - 1) as nat, |i: int| '0');
        lemma_zeros((k - 1) as nat, s);
        assert(all.drop_last() =~= y + s);
        assert(all.last() == '0');
    } else {
        assert(all =~= s);
    }
}

proof fn lemma_filled_two(n: nat)
    requires
        n < 100,
    ensures
        filled(decimal(n), '0', 2).len() == 2,
        digits_value(filled(decimal(n), '0', 2)) == n,
{
    reveal_with_fuel(decimal, 3);
    decimal_is_read_back(n);
    lemma_zeros((2 - decimal(n).len()) as nat, decimal(n));
}

proof fn lemma_month_bound(y: int, m: int, d: int)
    requires
        1 <= m <= 12,
        1 <= d <= month_days(y, m),
    ensures
        d <= 31,
{
}

/// The fields of a time as text, read back from their digits, are the date of
/// the day and the time of day: the hours, minutes and seconds add up to what
/// is left of the day.
pub proof fn stamp_is_read_back(secs: i64, s: Seq<char>)
    requires
        is_stamp(secs, s),
        0 <= secs,
    ensures
        ({
            let n = s.len() as int;
            let y = digits_value(s.take(n - 15));
            let m = digits_value(s.subrange(n - 14, n - 12));
            let d = digits_value(s.subrange(n - 11, n - 9));
            let hour = digits_value(s.subrange(n - 8, n - 6));
            let minute = digits_value(s.subrange(n - 5, n - 3));
            let second = digits_value(s.subrange(n - 2, n));
            &&& n >= 19
            &&& s[n - 15] == '/'
            &&& s[n - 12] == '/'
            &&& s[n - 9] == ' '
            &&& s[n - 6] == ':'
            &&& s[n - 3] == ':'
            &&& is_date(secs as int / 86400, y, m, d)
            &&& secs == (secs as int / 86400) * 86400 + hour * 3600 + minute * 60 + second
            &&& 0 <= hour < 24
            &&& 0 <= minute < 60
            &&& 0 <= second < 60
        }),
{
    reveal_strlit("/");
    reveal_strlit(":");
    reveal_strlit(" ");
    let (y, m, d) = choose|y: int, m: int, d: int|
        #[trigger] is_date(day_of(secs), y, m, d) && s == stamp(
            y,
            m,
            d,
            since_1970(secs) % 86400,
        );
    let t = since_1970(secs) % 86400;
    lemma_month_bound(y, m, d);
    decimal_is_read_back(y as nat);
    lemma_four(y as nat);
    lemma_filled_two(m as nat);
    lemma_filled_two(d as nat);
    lemma_filled_two((t / 3600) as nat);
    lemma_filled_two((t / 60 % 60) as nat);
    lemma_filled_two((t % 60) as nat);
    let n = s.len() as int;
    assert(s.take(n - 15) =~= decimal(y as nat));
    assert(s.subrange(n - 14, n - 12) =~= filled(decimal(m as nat), '0', 2));
    assert(s.subrange(n - 11, n - 9) =~= filled(decimal(d as nat), '0', 2));
    assert(s.subrange(n - 8, n - 6) =~= filled(decimal((t / 3600) as nat), '0', 2));
    assert(s.subrange(n - 5, n - 3) =~= filled(decimal((t / 60 % 60) as nat), '0', 2));
    assert(s.subrange(n - 2, n) =~= filled(decimal((t % 60) as nat), '0', 2));
}

proof fn lemma_four(y: nat)
    requires
        y >= 1000,
    ensures
        decimal(y).len() >= 4,
    decreases y,
{
    if y < 10000 {
        reveal_with_fuel(decimal, 5);
    } else {
        lemma_four(y / 10);
    }
}

/// A time before 1970 is shown as the start of 1970.
pub proof fn early_times_are_shown_alike(secs: i64, s: Seq<char>)
    requires
        secs < 0,
        is_stamp(secs, s),
    ensures
        is_stamp(0, s),
{
    let (y, m, d) = choose|y: int, m: int, d: int|
        #[trigger] is_date(day_of(secs), y, m, d) && s == stamp(
            y,
            m,
            d,
            since_1970(secs) % 86400,
        );
    assert(is_date(day_of(0), y, m, d));
}

/// How many days are between the start of year 1 and a date, as the calendar
/// counts them: a leap day every fourth year, but not every hundredth, unless
/// it is a four-hundredth.
pub open spec fn calendar_day(y: int, m: int, d: int) -> int {
    let n = y - 1;
    let leap = y % 400 == 0 || (y % 4 == 0 && y % 100 != 0);
    365 * n + n / 4 - n / 100 + n / 400 + (367 * m - 362) / 12 + (if m <= 2 {
        0int
    } else if leap {
        -1
    } else {
        -2
    }) + d - 1
}

proof fn lemma_month_starts(y: int, m: int)
    requires
        1 <= m <= 12,
    ensures
        days_before_month(y, m) == (367 * m - 362) / 12 + if m <= 2 {
            0int
        } else if is_leap(y) {
            -1
        } else {
            -2
        },
{
    reveal_with_fuel(days_before_month, 13);
}

proof fn lemma_quotient_step(n: int, k: int)
    requires
        k > 1,
    ensures
        n / k - (n - 1) / k == if n % k == 0 {
            1int
        } else {
            0
        },
{
    let q = n / k;
    let r = n % k;
    vstd::arithmetic::div_mod::lemma_fundamental_div_mod(n, k);
    vstd::arithmetic::div_mod::lemma_mod_bound(n, k);
    if r == 0 {
        assert(n - 1 == k * (q - 1) + (k - 1)) by (nonlinear_arith)
            requires
                n == k * q,
        ;
        vstd::arithmetic::div_mod::lemma_fundamental_div_mod_converse(n - 1, k, q - 1, k - 1);
    } else {
        vstd::arithmetic::div_mod::lemma_fundamental_div_mod_converse(n - 1, k, q, r - 1);
    }
}

proof fn lemma_divides(n: int)
    ensures
        n % 400 == 0 ==> n % 100 == 0,
        n % 100 == 0 ==> n % 4 == 0,
{
}

proof fn lemma_leap_days(n: int)
    ensures
        n / 4 - (n - 1) / 4 - (n / 100 - (n - 1) / 100) + (n / 400 - (n - 1) / 400) == if is_leap(
            n,
        ) {
            1int
        } else {
            0
        },
{
    lemma_quotient_step(n, 4);
    lemma_quotient_step(n, 100);
    lemma_quotient_step(n, 400);
    lemma_divides(n);
}

spec fn year_start(y: int) -> int {
    365 * (y - 1) + (y - 1) / 4 - (y - 1) / 100 + (y - 1) / 400 - 719162
}

proof fn lemma_next_start(n: int)
    ensures
        year_start(n + 1) == year_start(n) + year_days(n),
{
    lemma_leap_days(n);
    assert(n - 1 + 1 == n);
}

proof fn lemma_year_starts(y: int)
    requires
        1970 <= y,
    ensures
        days_before_year(y) == year_start(y),
    decreases y,
{
    if y > 1970 {
        lemma_year_starts(y - 1);
        lemma_next_start(y - 1);
    }
}

/// The date of a day is the one that the calendar has for it, with 1 January
/// 1970 as day 0.
pub proof fn dates_follow_the_calendar(days: int, y: int, m: int, d: int)
    requires
        is_date(days, y, m, d),
    ensures
        days == calendar_day(y, m, d) - calendar_day(1970, 1, 1),
        1 <= m <= 12,
        1 <= d <= 31,
{
    lemma_year_starts(y);
    lemma_month_starts(y, m);
}

/// A day has a date, and the day behind it has the date behind it: the next
/// day of the month, or the first of the next month or year.
pub proof fn days_follow_each_other(days: int, y: int, m: int, d: int)
    requires
        is_date(days, y, m, d),
    ensures
        is_date(days + 1, y, m, d + 1) || (m < 12 && is_date(days + 1, y, m + 1, 1)) || (m == 12
            && d == 31 && is_date(days + 1, y + 1, 1, 1)),
        is_date(0, 1970, 1, 1),
{
    reveal_with_fuel(days_before_month, 13);
    assert(days_before_month(y, 12) + 31 == year_days(y));
}

} // verus!
