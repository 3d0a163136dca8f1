//! Block sizes, and numbers and changes as text.

use vstd::prelude::*;

use crate::flags::{flag_set, has_bit};
use crate::protocol::constants::{
    BLOCK_SIZE, ITEM_DELETED, ITEM_IS_NEW, ITEM_LOCAL_CHANGE, ITEM_MISSING_DATA, ITEM_REPORT_ACL,
    ITEM_REPORT_ATIME, ITEM_REPORT_CHANGE, ITEM_REPORT_CRTIME, ITEM_REPORT_GROUP, ITEM_REPORT_OWNER,
    ITEM_REPORT_PERMS, ITEM_REPORT_SIZE, ITEM_REPORT_TIME, ITEM_REPORT_XATTR, ITEM_TRANSFER,
    ITEM_XNAME_FOLLOWS, MAX_BLOCK_SIZE,
};
use crate::protocol::types::mode_kind;
use crate::text::{
    chars_of, decimal, digit, find_char, first_index, parse_signed, parsed_signed, push_decimal,
    string_of, text,
};

verus! {

// ---------------------------------------------------------------------------
// Block sizes
// ---------------------------------------------------------------------------

/// The block length for a file: a ten-thousandth of its size, within bounds.
pub open spec fn block_len(file_size: int) -> int {
    if file_size < BLOCK_SIZE * 10_000 {
        BLOCK_SIZE as int
    } else if file_size / 10_000 > MAX_BLOCK_SIZE {
        MAX_BLOCK_SIZE as int
    } else {
        file_size / 10_000
    }
}

/// How many blocks of `blength` bytes cover a file.
pub open spec fn block_count(file_size: int, blength: int) -> int {
    if blength <= 0 || file_size <= 0 {
        0
    } else {
        (file_size + blength - 1) / blength
    }
}

/// What the last block is short of a whole one, as a length; 0 where it is
/// whole.
pub open spec fn last_block(file_size: int, blength: int) -> int {
    if blength <= 0 || file_size <= 0 {
        0
    } else {
        file_size % blength
    }
}

/// Chooses the block length for a file.
pub fn block_len_for_file(file_size: i64) -> (n: i32)
    ensures
        n == block_len(file_size as int),
{
    if file_size < 7_000_000 {
        return BLOCK_SIZE as i32;
    }
    let n: i64 = file_size / 10_000;
    if n > MAX_BLOCK_SIZE as i64 {
        MAX_BLOCK_SIZE
    } else {
        n as i32
    }
}

/// Counts the blocks of a file.
pub fn sum_count_for_file(file_size: i64, blength: i32) -> (n: i32)
    requires
        file_size + blength <= i64::MAX,
    ensures
        n == block_count(file_size as int, blength as int) as i32,
{
    if blength <= 0 || file_size <= 0 {
        return 0;
    }
    ((file_size + blength as i64 - 1) / blength as i64) as i32
}

/// The length of the last block of a file, 0 where it is a whole one.
pub fn remainder_for_file(file_size: i64, blength: i32) -> (n: i32)
    ensures
        n == last_block(file_size as int, blength as int),
{
    if blength <= 0 || file_size <= 0 {
        return 0;
    }
    let b: i64 = blength as i64;
    let r: i64 = file_size % b;
    assert(0 <= r < b) by {
        assert(0 <= file_size as int % b as int && (file_size as int % b as int) < b as int)
            by (nonlinear_arith)
            requires
                b > 0,
        ;
    }
    r as i32
}

/// The blocks of a file cover it: all but the last are whole, and the last
/// holds the remainder, or is whole where there is none.
pub proof fn blocks_cover_file(file_size: int, blength: int)
    requires
        file_size > 0,
        blength > 0,
    ensures
        ({
            let n = block_count(file_size, blength);
            let r = last_block(file_size, blength);
            file_size == (n - 1) * blength + if r == 0 {
                blength
            } else {
                r
            }
        }),
{
    let q = file_size / blength;
    let r = file_size % blength;
    assert(file_size == q * blength + r && 0 <= r < blength) by (nonlinear_arith)
        requires
            blength > 0,
            q == file_size / blength,
            r == file_size % blength,
    ;
    let n = (file_size + blength - 1) / blength;
    if r == 0 {
        assert(n == q) by (nonlinear_arith)
            requires
                blength > 0,
                file_size == q * blength,
                n == (file_size + blength - 1) / blength,
        ;
        assert(q * blength == (q - 1) * blength + blength) by (nonlinear_arith);
    } else {
        assert(n == q + 1) by (nonlinear_arith)
            requires
                blength > 0,
                file_size == q * blength + r,
                0 < r < blength,
                n == (file_size + blength - 1) / blength,
        ;
    }
}

// ---------------------------------------------------------------------------
// Numbers
// ---------------------------------------------------------------------------

/// The digits of a number below a thousand, with leading zeros.
pub open spec fn three_digits(n: nat) -> Seq<char> {
    seq![digit(n / 100), digit(n / 10 % 10), digit(n % 10)]
}

/// A number with a comma before each group of three digits.
pub open spec fn grouped(n: nat) -> Seq<char>
    decreases n,
{
    if n < 1000 {
        decimal(n)
    } else {
        grouped(n / 1000) + seq![','] + three_digits(n % 1000)
    }
}

/// A number with its sign and commas.
pub open spec fn big_text(n: int) -> Seq<char> {
    if n < 0 {
        seq!['-'] + grouped((-n) as nat)
    } else {
        grouped(n as nat)
    }
}

fn push_digit(s: &mut String, d: u64)
    requires
        d < 10,
    ensures
        final(s)@ == old(s)@.push(digit(d as nat)),
{
    s.push((d as u8 + 48) as char);
}

fn push_grouped(s: &mut String, n: u64)
    ensures
        final(s)@ == old(s)@ + grouped(n as nat),
    decreases n,
{
    if n < 1000 {
        push_decimal(s, n);
        return;
    }
    push_grouped(s, n / 1000);
    s.push(',');
    let k: u64 = n % 1000;
    push_digit(s, k / 100);
    push_digit(s, k / 10 % 10);
    push_digit(s, k % 10);
    assert(s@ =~= old(s)@ + grouped(n as nat));
}

fn magnitude(n: i64) -> (m: u64)
    ensures
        m == if n < 0 {
            -(n as int)
        } else {
            n as int
        },
{
    if n < 0 {
        (-(n + 1)) as u64 + 1
    } else {
        n as u64
    }
}

/// Writes a number with commas.
pub fn big_num(n: i64) -> (s: String)
    ensures
        s@ == big_text(n as int),
{
    let mut s: String = String::new();
    if n < 0 {
        s.push('-');
    }
    push_grouped(&mut s, magnitude(n));
    assert(s@ =~= big_text(n as int));
    s
}

/// A byte count for people to read.
#[derive(Debug)]
pub enum HumanNum {
    /// The number as it is written.
    Plain(String),
    /// A number to be written in units: as often as it can be, the magnitude
    /// is divided by the base.
    Scaled { magnitude: u64, base: u64, negative: bool },
}

/// The base of the units at a level, where that level has units.
pub open spec fn unit_base(level: u8) -> Option<u64> {
    if level >= 2 {
        Some(1024u64)
    } else if level == 1 {
        Some(1000u64)
    } else {
        None
    }
}

/// Writes a byte count: with commas at level 0 and where it is below the
/// base of the units, and in units of 1000 at level 1, of 1024 above.
pub fn human_num_level(n: i64, level: u8) -> (h: HumanNum)
    ensures
        match h {
            HumanNum::Plain(s) => s@ == big_text(n as int) && (unit_base(level) matches Some(b)
                ==> -(b as int) < n < b),
            HumanNum::Scaled { magnitude, base, negative } => unit_base(level) == Some(base)
                && magnitude >= base && negative == (n < 0) && n == if negative {
                -(magnitude as int)
            } else {
                magnitude as int
            },
        },
{
    if level == 0 {
        return HumanNum::Plain(big_num(n));
    }
    let base: u64 = if level >= 2 {
        1024
    } else {
        1000
    };
    let m: u64 = magnitude(n);
    if m < base {
        HumanNum::Plain(big_num(n))
    } else {
        HumanNum::Scaled { magnitude: m, base, negative: n < 0 }
    }
}

/// Writes a byte count at level 0.
pub fn human_num(n: i64) -> (s: String)
    ensures
        s@ == big_text(n as int),
{
    big_num(n)
}

/// A decimal fraction with commas in front of the point.  Where the part in
/// front is no number it is taken as 0.
pub open spec fn comma_text(formatted: Seq<char>) -> Seq<char> {
    let (whole, fraction) = match first_index(formatted, '.') {
        Some(i) => (formatted.take(i), formatted.skip(i)),
        None => (formatted, Seq::empty()),
    };
    big_text(
        match parsed_signed(whole) {
            Some(n) => n,
            None => 0,
        },
    ) + fraction
}

/// Puts commas into a decimal fraction.
pub fn comma_dnum(formatted: &str) -> (s: String)
    ensures
        s@ == comma_text(formatted@),
{
    let chars: Vec<char> = chars_of(formatted);
    let at: usize = match find_char(chars.as_slice(), '.') {
        Some(i) => i,
        None => chars.len(),
    };
    let (whole, fraction) = chars.as_slice().split_at(at);
    let n: i64 = match parse_signed(whole) {
        Some(n) => n,
        None => 0,
    };
    let mut s: String = big_num(n);
    s.push_str(string_of(fraction).as_str());
    proof {
        match first_index(formatted@, '.') {
            Some(i) => {
                assert(whole@ =~= formatted@.take(i));
                assert(fraction@ =~= formatted@.skip(i));
            },
            None => {
                assert(whole@ =~= formatted@);
                assert(fraction@ =~= Seq::<char>::empty());
            },
        }
        assert(s@ =~= comma_text(formatted@));
    }
    s
}

/// Whether two files are one.
pub open spec fn is_one_file(a_dev: u64, a_ino: u64, b_dev: u64, b_ino: u64) -> bool {
    a_dev == b_dev && a_ino == b_ino
}

/// Whether two files are one: the same device and the same inode.
pub fn same_file(a_dev: u64, a_ino: u64, b_dev: u64, b_ino: u64) -> (same: bool)
    ensures
        same == is_one_file(a_dev, a_ino, b_dev, b_ino),
        same == (a_dev == b_dev && a_ino == b_ino),
{
    a_dev == b_dev && a_ino == b_ino
}

// ---------------------------------------------------------------------------
// Changes
// ---------------------------------------------------------------------------

/// What is done to a file, as a character.
pub open spec fn update_char(iflags: u32, am_sender: bool) -> char {
    if flag_set(iflags, ITEM_LOCAL_CHANGE) {
        if flag_set(iflags, ITEM_XNAME_FOLLOWS) {
            'h'
        } else {
            'c'
        }
    } else if !flag_set(iflags, ITEM_TRANSFER) {
        '.'
    } else if am_sender {
        '<'
    } else {
        '>'
    }
}

/// What kind of file it is, as a character.
pub open spec fn kind_char(mode: u32) -> char {
    let k = mode_kind(mode);
    if k == 10 {
        'L'
    } else if k == 4 {
        'd'
    } else if k == 1 || k == 12 {
        'S'
    } else if k == 6 || k == 2 {
        'D'
    } else {
        'f'
    }
}

/// `c` where the flag is set, and a dot otherwise.
pub open spec fn mark(iflags: u32, bit: u32, c: char) -> char {
    if flag_set(iflags, bit) {
        c
    } else {
        '.'
    }
}

/// The change of access and creation times, as a character.
pub open spec fn time_char(iflags: u32) -> char {
    let a = flag_set(iflags, ITEM_REPORT_ATIME);
    let c = flag_set(iflags, ITEM_REPORT_CRTIME);
    if a && c {
        'b'
    } else if a {
        'u'
    } else if c {
        'n'
    } else {
        '.'
    }
}

/// The nine attributes of a change.  The size of a symbolic link does not
/// count.
pub open spec fn attribute_chars(iflags: u32, mode: u32) -> Seq<char> {
    seq![
        mark(iflags, ITEM_REPORT_CHANGE, 'c'),
        if mode_kind(mode) == 10 {
            '.'
        } else {
            mark(iflags, ITEM_REPORT_SIZE, 's')
        },
        mark(iflags, ITEM_REPORT_TIME, 't'),
        mark(iflags, ITEM_REPORT_PERMS, 'p'),
        mark(iflags, ITEM_REPORT_OWNER, 'o'),
        mark(iflags, ITEM_REPORT_GROUP, 'g'),
        time_char(iflags),
        mark(iflags, ITEM_REPORT_ACL, 'a'),
        mark(iflags, ITEM_REPORT_XATTR, 'x'),
    ]
}

/// `c` nine times.
pub open spec fn nine(c: char) -> Seq<char> {
    Seq::new(9, |i: int| c)
}

/// A change in eleven characters.
pub open spec fn change_text(iflags: u32, mode: u32, am_sender: bool) -> Seq<char> {
    if flag_set(iflags, ITEM_DELETED) {
        "*deleting  "@
    } else {
        let u = update_char(iflags, am_sender);
        let a = attribute_chars(iflags, mode);
        seq![u, kind_char(mode)] + if flag_set(iflags, ITEM_IS_NEW) {
            nine('+')
        } else if flag_set(iflags, ITEM_MISSING_DATA) {
            nine('?')
        } else if (u == '.' || u == 'h' || u == 'c') && a == nine('.') {
            nine(' ')
        } else {
            a
        }
    }
}

fn mark_of(iflags: u32, bit: u32, c: char) -> (r: char)
    requires
        bit > 0,
    ensures
        r == mark(iflags, bit, c),
{
    if has_bit(iflags, bit) {
        c
    } else {
        '.'
    }
}

fn update_char_of(iflags: u32, am_sender: bool) -> (c: char)
    ensures
        c == update_char(iflags, am_sender),
{
    if has_bit(iflags, ITEM_LOCAL_CHANGE) {
        if has_bit(iflags, ITEM_XNAME_FOLLOWS) {
            'h'
        } else {
            'c'
        }
    } else if !has_bit(iflags, ITEM_TRANSFER) {
        '.'
    } else if am_sender {
        '<'
    } else {
        '>'
    }
}

fn kind_char_of(mode: u32) -> (c: char)
    ensures
        c == kind_char(mode),
{
    let k: u32 = mode / 0x1000 % 16;
    if k == 10 {
        'L'
    } else if k == 4 {
        'd'
    } else if k == 1 || k == 12 {
        'S'
    } else if k == 6 || k == 2 {
        'D'
    } else {
        'f'
    }
}

fn time_char_of(iflags: u32) -> (c: char)
    ensures
        c == time_char(iflags),
{
    let a: bool = has_bit(iflags, ITEM_REPORT_ATIME);
    let c: bool = has_bit(iflags, ITEM_REPORT_CRTIME);
    if a && c {
        'b'
    } else if a {
        'u'
    } else if c {
        'n'
    } else {
        '.'
    }
}

fn attribute_list(iflags: u32, mode: u32) -> (out: Vec<char>)
    ensures
        out@ == attribute_chars(iflags, mode),
{
    let mut out: Vec<char> = Vec::new();
    out.push(mark_of(iflags, ITEM_REPORT_CHANGE, 'c'));
    if mode / 0x1000 % 16 == 10 {
        out.push('.');
    } else {
        out.push(mark_of(iflags, ITEM_REPORT_SIZE, 's'));
    }
    out.push(mark_of(iflags, ITEM_REPORT_TIME, 't'));
    out.push(mark_of(iflags, ITEM_REPORT_PERMS, 'p'));
    out.push(mark_of(iflags, ITEM_REPORT_OWNER, 'o'));
    out.push(mark_of(iflags, ITEM_REPORT_GROUP, 'g'));
    out.push(time_char_of(iflags));
    out.push(mark_of(iflags, ITEM_REPORT_ACL, 'a'));
    out.push(mark_of(iflags, ITEM_REPORT_XATTR, 'x'));
    assert(out@ =~= attribute_chars(iflags, mode));
    out
}

fn nine_of(c: char) -> (out: Vec<char>)
    ensures
        out@ == nine(c),
{
    let mut out: Vec<char> = Vec::new();
    let mut i: usize = 0;
    while i < 9
        invariant
            i <= 9,
            out@ == Seq::new(i as nat, |k: int| c),
        decreases 9 - i,
    {
        out.push(c);
        i = i + 1;
        assert(out@ =~= Seq::new(i as nat, |k: int| c));
    }
    assert(out@ =~= nine(c));
    out
}

fn all_dots(v: &Vec<char>) -> (b: bool)
    requires
        v@.len() == 9,
    ensures
        b == (v@ == nine('.')),
{
    let mut i: usize = 0;
    while i < v.len()
        invariant
            i <= v@.len(),
            v@.len() == 9,
            forall|k: int| 0 <= k < i ==> v@[k] == '.',
        decreases v@.len() - i,
    {
        if v[i] != '.' {
            assert(v@[i as int] != nine('.')[i as int]);
            return false;
        }
        i = i + 1;
    }
    assert(v@ =~= nine('.'));
    true
}

/// Writes a change in eleven characters: what is done, the kind of file, and
/// nine attributes.
pub fn iflags_to_str(iflags: u32, mode: u32, am_sender: bool) -> (s: String)
    ensures
        s@ == change_text(iflags, mode, am_sender),
{
    if has_bit(iflags, ITEM_DELETED) {
        return text("*deleting  ");
    }
    let u: char = update_char_of(iflags, am_sender);
    let a: Vec<char> = attribute_list(iflags, mode);
    let tail: Vec<char> = if has_bit(iflags, ITEM_IS_NEW) {
        nine_of('+')
    } else if has_bit(iflags, ITEM_MISSING_DATA) {
        nine_of('?')
    } else if (u == '.' || u == 'h' || u == 'c') && all_dots(&a) {
        nine_of(' ')
    } else {
        a
    };
    let mut s: String = String::new();
    s.push(u);
    s.push(kind_char_of(mode));
    s.push_str(string_of(tail.as_slice()).as_str());
    assert(s@ =~= change_text(iflags, mode, am_sender));
    s
}

/// A change always takes eleven characters.
pub proof fn changes_line_up(iflags: u32, mode: u32, am_sender: bool)
    ensures
        change_text(iflags, mode, am_sender).len() == 11,
{
    reveal_strlit("*deleting  ");
}

} // verus!
