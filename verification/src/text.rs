//! Text that crosses the wire as bytes.

use vstd::prelude::*;
use vstd::utf8::{
    decode_utf8, encode_utf8, encode_utf8_decode_utf8, encode_utf8_valid_utf8,
    is_ascii_chars_encode_utf8, valid_utf8,
};

verus! {

/// The characters that `String::from_utf8_lossy` makes of bytes that are not
/// valid UTF-8.
pub uninterp spec fn utf8_replaced(bytes: Seq<u8>) -> Seq<char>;

/// The text that received bytes stand for: their UTF-8 decoding, or the
/// decoding with replacement characters where they are not valid UTF-8.
pub open spec fn text_of(bytes: Seq<u8>) -> Seq<char> {
    if valid_utf8(bytes) {
        decode_utf8(bytes)
    } else {
        utf8_replaced(bytes)
    }
}

/// Calls `String::from_utf8_lossy`.  Valid UTF-8 is decoded as it stands; what
/// stands for the invalid sequences of other input is a function of the bytes
/// and is left unsaid.
#[verifier::external_body]
pub(crate) fn utf8_lossy(bytes: &[u8]) -> (res: String)
    ensures
        res@ == (if valid_utf8(bytes@) {
            decode_utf8(bytes@)
        } else {
            utf8_replaced(bytes@)
        }),
{
    String::from_utf8_lossy(bytes).into_owned()
}

/// Text survives the trip through its bytes.
pub proof fn text_round_trip(chars: Seq<char>)
    ensures
        text_of(encode_utf8(chars)) == chars,
{
    encode_utf8_valid_utf8(chars);
    encode_utf8_decode_utf8(chars);
}

/// How a text with a character that has to be escaped is shown for debugging.
pub uninterp spec fn debug_form(s: Seq<char>) -> Seq<char>;

/// Whether a character is shown for debugging as it stands: a printable ASCII
/// character, but for the quote and the backslash.
pub open spec fn is_shown(c: char) -> bool {
    ' ' <= c <= '~' && c != '"' && c != '\\'
}

/// A text as it is shown for debugging: between quotes, with everything in it
/// escaped that is not printable.
pub open spec fn debug_text_of(s: Seq<char>) -> Seq<char> {
    if forall|i: int| 0 <= i < s.len() ==> is_shown(#[trigger] s[i]) {
        seq!['"'] + s + seq!['"']
    } else {
        debug_form(s)
    }
}

/// Calls the `Debug` formatting of `str`.  Printable ASCII comes out as it
/// stands, between quotes; how other characters, the quote and the backslash
/// are escaped is a function of the text and is left unsaid.
#[verifier::external_body]
pub(crate) fn debug_text(s: &str) -> (res: String)
    ensures
        res@ == (if forall|i: int| 0 <= i < s@.len() ==> is_shown(#[trigger] s@[i]) {
            seq!['"'] + s@ + seq!['"']
        } else {
            debug_form(s@)
        }),
{
    format!("{:?}", s)
}

/// `String::push` adds one character at the end.
pub assume_specification[ String::push ](s: &mut String, c: char)
    ensures
        final(s)@ == old(s)@.push(c),
;

/// `String::push_str` adds the characters of a slice at the end.
pub assume_specification[ String::push_str ](s: &mut String, other: &str)
    ensures
        final(s)@ == old(s)@ + other@,
;

/// The characters of a string.
pub fn chars_of(s: &str) -> (out: Vec<char>)
    ensures
        out@ == s@,
{
    let mut out: Vec<char> = Vec::new();
    for c in it: s.chars()
        invariant
            out@ == it.seq().take(it.index() as int),
            it.seq() == s@,
    {
        out.push(c);
        assert(it.seq().take(it.index() + 1) =~= it.seq().take(it.index() as int).push(c));
    }
    assert(out@ =~= s@);
    out
}

/// The string of some characters.
pub fn string_of(chars: &[char]) -> (s: String)
    ensures
        s@ == chars@,
{
    let mut s: String = String::new();
    let mut i: usize = 0;
    assert(s@ =~= chars@.take(0));
    while i < chars.len()
        invariant
            i <= chars@.len(),
            s@ == chars@.take(i as int),
        decreases chars@.len() - i,
    {
        s.push(chars[i]);
        i = i + 1;
        assert(s@ =~= chars@.take(i as int));
    }
    assert(chars@.take(i as int) =~= chars@);
    s
}

/// The digit character of `d`.
pub open spec fn digit(d: nat) -> char {
    (d + 48) as char
}

/// `n` in decimal, without leading zeros.
pub open spec fn decimal(n: nat) -> Seq<char>
    decreases n,
{
    if n < 10 {
        seq![digit(n)]
    } else {
        decimal(n / 10).push(digit(n % 10))
    }
}

/// `x` in decimal, with a minus sign in front where it is negative.
pub open spec fn signed_decimal(x: int) -> Seq<char> {
    if x < 0 {
        seq!['-'] + decimal((-x) as nat)
    } else {
        decimal(x as nat)
    }
}

fn digit_of(d: u8) -> (c: char)
    requires
        d < 10,
    ensures
        c == digit(d as nat),
{
    (d + 48) as char
}

/// Adds `n` in decimal.
pub fn push_decimal(s: &mut String, n: u64)
    ensures
        final(s)@ == old(s)@ + decimal(n as nat),
    decreases n,
{
    if n >= 10 {
        push_decimal(s, n / 10);
    }
    s.push(digit_of((n % 10) as u8));
    assert(s@ =~= old(s)@ + decimal(n as nat));
}

/// Adds `x` in decimal, with its sign where it is negative.
pub fn push_signed(s: &mut String, x: i64)
    ensures
        final(s)@ == old(s)@ + signed_decimal(x as int),
{
    if x < 0 {
        s.push('-');
        let m: u64 = (-(x + 1)) as u64 + 1;
        push_decimal(s, m);
        assert(s@ =~= old(s)@ + signed_decimal(x as int));
    } else {
        push_decimal(s, x as u64);
    }
}

/// The bytes of two texts one behind the other.
pub proof fn lemma_encode_concat(a: Seq<char>, b: Seq<char>)
    ensures
        encode_utf8(a + b) == encode_utf8(a) + encode_utf8(b),
    decreases a.len(),
{
    if a.len() == 0 {
        assert(a + b =~= b);
        assert(encode_utf8(a) =~= Seq::<u8>::empty());
        assert(encode_utf8(a) + encode_utf8(b) =~= encode_utf8(b));
    } else {
        lemma_encode_concat(a.drop_first(), b);
        assert((a + b).drop_first() =~= a.drop_first() + b);
        assert((a + b)[0] == a[0]);
        assert(encode_utf8(a + b) =~= encode_utf8(a) + encode_utf8(b));
    }
}

/// Every character takes at least one byte.
pub proof fn lemma_encode_len(a: Seq<char>)
    ensures
        encode_utf8(a).len() >= a.len(),
        a.len() == 0 ==> encode_utf8(a).len() == 0,
    decreases a.len(),
{
    if a.len() > 0 {
        lemma_encode_len(a.drop_first());
    }
}

pub proof fn lemma_encode_slash()
    ensures
        encode_utf8(seq!['/']) == seq![0x2fu8],
{
    is_ascii_chars_encode_utf8(seq!['/']);
    assert(encode_utf8(seq!['/']) =~= seq![0x2fu8]);
}

// ---------------------------------------------------------------------------
// Searching, comparing and cutting
// ---------------------------------------------------------------------------

/// The position of the first `c` in `s` from `k` on.
pub open spec fn index_from(s: Seq<char>, c: char, k: nat) -> Option<int>
    decreases s.len() - k,
{
    if k >= s.len() {
        None
    } else if s[k as int] == c {
        Some(k as int)
    } else {
        index_from(s, c, k + 1)
    }
}

/// The position of the first `c` in `s`.
pub open spec fn first_index(s: Seq<char>, c: char) -> Option<int> {
    index_from(s, c, 0)
}

/// The position of the last `c` in `s`.
pub open spec fn last_index(s: Seq<char>, c: char) -> Option<int>
    decreases s.len(),
{
    if s.len() == 0 {
        None
    } else if s.last() == c {
        Some(s.len() - 1)
    } else {
        last_index(s.drop_last(), c)
    }
}

pub proof fn lemma_index_from(s: Seq<char>, c: char, k: nat)
    ensures
        match index_from(s, c, k) {
            Some(i) => k <= i < s.len() && s[i] == c && forall|j: int| k <= j < i ==> s[j] != c,
            None => forall|j: int| k <= j < s.len() ==> s[j] != c,
        },
    decreases s.len() - k,
{
    if k < s.len() && s[k as int] != c {
        lemma_index_from(s, c, k + 1);
    }
}

pub proof fn lemma_last_index(s: Seq<char>, c: char)
    ensures
        match last_index(s, c) {
            Some(i) => 0 <= i < s.len() && s[i] == c && forall|j: int| i < j < s.len() ==> s[j] != c,
            None => forall|j: int| 0 <= j < s.len() ==> s[j] != c,
        },
    decreases s.len(),
{
    if s.len() > 0 && s.last() != c {
        let t = s.drop_last();
        lemma_last_index(t, c);
        assert forall|j: int| 0 <= j < t.len() implies s[j] == t[j] by {}
    }
}

/// Finds the first `c`.
pub fn find_char(s: &[char], c: char) -> (res: Option<usize>)
    ensures
        match res {
            Some(i) => first_index(s@, c) == Some(i as int) && i < s@.len(),
            None => first_index(s@, c) == None::<int>,
        },
{
    let mut k: usize = 0;
    while k < s.len()
        invariant
            k <= s@.len(),
            index_from(s@, c, k as nat) == first_index(s@, c),
        decreases s@.len() - k,
    {
        if s[k] == c {
            return Some(k);
        }
        k = k + 1;
    }
    None
}

/// Finds the last `c`.
pub fn rfind_char(s: &[char], c: char) -> (res: Option<usize>)
    ensures
        match res {
            Some(i) => last_index(s@, c) == Some(i as int) && i < s@.len(),
            None => last_index(s@, c) == None::<int>,
        },
{
    let mut k: usize = s.len();
    assert(s@.take(k as int) =~= s@);
    while k > 0
        invariant
            k <= s@.len(),
            last_index(s@.take(k as int), c) == last_index(s@, c),
        decreases k,
    {
        assert(s@.take(k as int).last() == s@[k - 1]);
        assert(s@.take(k as int).drop_last() =~= s@.take(k - 1));
        if s[k - 1] == c {
            return Some(k - 1);
        }
        k = k - 1;
    }
    None
}

/// The characters from `from` to `to`.
pub fn cut(s: &[char], from: usize, to: usize) -> (out: &[char])
    requires
        from <= to <= s@.len(),
    ensures
        out@ == s@.subrange(from as int, to as int),
{
    let out: &[char] = s.split_at(to).0.split_at(from).1;
    assert(out@ =~= s@.subrange(from as int, to as int));
    out
}

/// Whether two texts are the same.
pub fn same_chars(a: &[char], b: &[char]) -> (same: bool)
    ensures
        same == (a@ == b@),
{
    if a.len() != b.len() {
        return false;
    }
    let mut i: usize = 0;
    while i < a.len()
        invariant
            i <= a@.len() == b@.len(),
            a@.take(i as int) == b@.take(i as int),
        decreases a@.len() - i,
    {
        if a[i] != b[i] {
            return false;
        }
        assert(a@.take(i + 1) =~= a@.take(i as int).push(a@[i as int]));
        assert(b@.take(i + 1) =~= b@.take(i as int).push(b@[i as int]));
        i = i + 1;
    }
    assert(a@.take(i as int) =~= a@);
    assert(b@.take(i as int) =~= b@);
    true
}

/// Whether some characters are a given text.
pub fn is_text(a: &[char], text: &str) -> (same: bool)
    ensures
        same == (a@ == text@),
{
    same_chars(a, chars_of(text).as_slice())
}

/// Whether two strings are the same.
pub fn same_text(a: &str, b: &str) -> (same: bool)
    ensures
        same == (a@ == b@),
{
    same_chars(chars_of(a).as_slice(), chars_of(b).as_slice())
}

/// Whether `s` starts with `prefix`.
pub open spec fn begins_with(s: Seq<char>, prefix: Seq<char>) -> bool {
    prefix.len() <= s.len() && s.take(prefix.len() as int) == prefix
}

/// Tests whether some characters start with a given text.
pub fn starts_with_text(s: &[char], prefix: &str) -> (b: bool)
    ensures
        b == begins_with(s@, prefix@),
{
    let p: Vec<char> = chars_of(prefix);
    if p.len() > s.len() {
        return false;
    }
    let head: &[char] = s.split_at(p.len()).0;
    assert(head@ =~= s@.take(p@.len() as int));
    same_chars(head, p.as_slice())
}

/// The models of some strings.
pub open spec fn texts(v: Seq<String>) -> Seq<Seq<char>> {
    Seq::new(v.len(), |i: int| v[i]@)
}

pub proof fn lemma_texts_push(v: Seq<String>, s: String)
    ensures
        texts(v.push(s)) == texts(v).push(s@),
{
    assert(texts(v.push(s)) =~= texts(v).push(s@));
}

/// An own copy of a text.
pub fn text(s: &str) -> (out: String)
    ensures
        out@ == s@,
{
    let mut out: String = String::new();
    out.push_str(s);
    assert(out@ =~= s@);
    out
}

// ---------------------------------------------------------------------------
// White space, lines and numbers
// ---------------------------------------------------------------------------

/// Whether a character is white space.
pub open spec fn is_white(c: char) -> bool {
    ||| '\u{9}' <= c <= '\u{d}'
    ||| c == ' '
    ||| c == '\u{85}'
    ||| c == '\u{a0}'
    ||| c == '\u{1680}'
    ||| '\u{2000}' <= c <= '\u{200a}'
    ||| c == '\u{2028}'
    ||| c == '\u{2029}'
    ||| c == '\u{202f}'
    ||| c == '\u{205f}'
    ||| c == '\u{3000}'
}

pub(crate) fn white(c: char) -> (b: bool)
    ensures
        b == is_white(c),
{
    ('\u{9}' <= c && c <= '\u{d}') || c == ' ' || c == '\u{85}' || c == '\u{a0}' || c == '\u{1680}'
        || ('\u{2000}' <= c && c <= '\u{200a}') || c == '\u{2028}' || c == '\u{2029}' || c
        == '\u{202f}' || c == '\u{205f}' || c == '\u{3000}'
}

/// `s` without the white space in front of it.
pub open spec fn trim_front(s: Seq<char>) -> Seq<char>
    decreases s.len(),
{
    if s.len() > 0 && is_white(s[0]) {
        trim_front(s.skip(1))
    } else {
        s
    }
}

/// `s` without the white space behind it.
pub open spec fn trim_back(s: Seq<char>) -> Seq<char>
    decreases s.len(),
{
    if s.len() > 0 && is_white(s.last()) {
        trim_back(s.drop_last())
    } else {
        s
    }
}

/// `s` without the white space around it.
pub open spec fn trimmed(s: Seq<char>) -> Seq<char> {
    trim_back(trim_front(s))
}

/// The characters without the white space around them.
pub fn trim_chars(s: &[char]) -> (out: &[char])
    ensures
        out@ == trimmed(s@),
{
    let mut rest: &[char] = s;
    while rest.len() > 0 && white(rest[0])
        invariant
            trim_front(rest@) == trim_front(s@),
        decreases rest@.len(),
    {
        let ghost before = rest@;
        rest = rest.split_at(1).1;
        assert(rest@ =~= before.skip(1));
    }
    let front: &[char] = rest;
    assert(front@ == trim_front(s@));
    while rest.len() > 0 && white(rest[rest.len() - 1])
        invariant
            trim_back(rest@) == trim_back(front@),
        decreases rest@.len(),
    {
        let ghost before = rest@;
        rest = rest.split_at(rest.len() - 1).0;
        assert(rest@ =~= before.drop_last());
    }
    rest
}

/// A line without the carriage return behind it.
pub open spec fn without_return(s: Seq<char>) -> Seq<char> {
    if s.len() > 0 && s.last() == '\r' {
        s.drop_last()
    } else {
        s
    }
}

/// The lines of a text.  The end of the last line may be missing.
pub open spec fn lines_of(s: Seq<char>) -> Seq<Seq<char>>
    decreases s.len(),
{
    if s.len() == 0 {
        Seq::empty()
    } else {
        match first_index(s, '\n') {
            None => seq![s],
            Some(i) => if 0 <= i < s.len() {
                seq![without_return(s.take(i))] + lines_of(s.skip(i + 1))
            } else {
                seq![s]
            },
        }
    }
}

/// The lines of a text.
pub fn split_lines(s: &str) -> (out: Vec<String>)
    ensures
        texts(out@) == lines_of(s@),
{
    let chars: Vec<char> = chars_of(s);
    let mut out: Vec<String> = Vec::new();
    let mut rest: &[char] = chars.as_slice();
    assert(texts(out@) =~= Seq::<Seq<char>>::empty());
    assert(texts(out@) + lines_of(rest@) =~= lines_of(s@));
    while rest.len() > 0
        invariant
            texts(out@) + lines_of(rest@) == lines_of(s@),
        decreases rest@.len(),
    {
        let ghost before = texts(out@);
        let ghost left = rest@;
        match find_char(rest, '\n') {
            None => {
                let line: String = string_of(rest);
                proof {
                    lemma_texts_push(out@, line);
                }
                out.push(line);
                rest = rest.split_at(rest.len()).1;
                assert(rest@ =~= Seq::<char>::empty());
                assert(texts(out@) + lines_of(rest@) =~= before + lines_of(left));
            },
            Some(i) => {
                let mut end: usize = i;
                if i > 0 && rest[i - 1] == '\r' {
                    end = i - 1;
                }
                let line: String = string_of(rest.split_at(end).0);
                assert(line@ =~= without_return(left.take(i as int)));
                proof {
                    lemma_texts_push(out@, line);
                }
                out.push(line);
                rest = rest.split_at(i + 1).1;
                assert(rest@ =~= left.skip(i + 1));
                assert(texts(out@) + lines_of(rest@) =~= before + lines_of(left));
            },
        }
    }
    assert(texts(out@) =~= texts(out@) + lines_of(rest@));
    out
}

/// Whether a character is a decimal digit.
pub open spec fn is_digit(c: char) -> bool {
    '0' <= c <= '9'
}

/// The number that some digits stand for.
pub open spec fn number_of(s: Seq<char>) -> nat
    decreases s.len(),
{
    if s.len() == 0 {
        0
    } else {
        number_of(s.drop_last()) * 10 + (s.last() as nat - 48) as nat
    }
}

/// Whether `s` is one digit or more.
pub open spec fn all_digits(s: Seq<char>) -> bool {
    s.len() > 0 && forall|i: int| 0 <= i < s.len() ==> is_digit(#[trigger] s[i])
}

/// The number up to `max` that a text stands for: digits, with a plus sign in
/// front or not.
pub open spec fn parsed_number(s: Seq<char>, max: nat) -> Option<nat> {
    let d = if s.len() > 0 && s[0] == '+' {
        s.skip(1)
    } else {
        s
    };
    if all_digits(d) && number_of(d) <= max {
        Some(number_of(d))
    } else {
        None
    }
}

proof fn lemma_number_grows(s: Seq<char>, k: int)
    requires
        0 <= k <= s.len(),
        forall|i: int| 0 <= i < s.len() ==> is_digit(#[trigger] s[i]),
    ensures
        number_of(s.take(k)) <= number_of(s),
    decreases s.len() - k,
{
    if k < s.len() {
        let next = s.take(k + 1);
        assert(next.drop_last() =~= s.take(k));
        assert(next.last() == s[k]);
        lemma_number_grows(s, k + 1);
    } else {
        assert(s.take(k) =~= s);
    }
}

/// Reads a number up to `max`.
pub fn parse_number(s: &[char], max: u64) -> (res: Option<u64>)
    ensures
        match res {
            Some(n) => parsed_number(s@, max as nat) == Some(n as nat),
            None => parsed_number(s@, max as nat) == None::<nat>,
        },
{
    let mut d: &[char] = s;
    if s.len() > 0 && s[0] == '+' {
        d = s.split_at(1).1;
        assert(d@ =~= s@.skip(1));
    }
    if d.len() == 0 {
        return None;
    }
    let mut n: u128 = 0;
    let mut i: usize = 0;
    assert(d@.take(0) =~= Seq::<char>::empty());
    while i < d.len()
        invariant
            i <= d@.len(),
            n <= max,
            n == number_of(d@.take(i as int)),
            forall|k: int| 0 <= k < i ==> is_digit(#[trigger] d@[k]),
            d@ == if s@.len() > 0 && s@[0] == '+' {
                s@.skip(1)
            } else {
                s@
            },
        decreases d@.len() - i,
    {
        let c: char = d[i];
        if !('0' <= c && c <= '9') {
            assert(!is_digit(d@[i as int]));
            return None;
        }
        let v: u128 = n * 10 + (c as u32 - 48) as u128;
        let ghost next = d@.take(i + 1);
        assert(next.drop_last() =~= d@.take(i as int));
        assert(next.last() == c);
        assert(v == number_of(next));
        if v > max as u128 {
            proof {
                if all_digits(d@) {
                    lemma_number_grows(d@, i + 1);
                }
            }
            return None;
        }
        n = v;
        i = i + 1;
    }
    assert(d@.take(i as int) =~= d@);
    Some(n as u64)
}

/// The number that a text stands for, if an `i64` can hold it: digits with a
/// sign in front or not.
pub open spec fn parsed_signed(s: Seq<char>) -> Option<int> {
    if s.len() > 0 && s[0] == '-' {
        let d = s.skip(1);
        if all_digits(d) && number_of(d) <= 0x8000_0000_0000_0000 {
            Some(-(number_of(d) as int))
        } else {
            None
        }
    } else {
        match parsed_number(s, i64::MAX as nat) {
            Some(n) => Some(n as int),
            None => None,
        }
    }
}

/// Reads a number with a sign.
pub fn parse_signed(s: &[char]) -> (res: Option<i64>)
    ensures
        match res {
            Some(n) => parsed_signed(s@) == Some(n as int),
            None => parsed_signed(s@) == None::<int>,
        },
{
    if s.len() > 0 && s[0] == '-' {
        let d: &[char] = s.split_at(1).1;
        assert(d@ =~= s@.skip(1));
        if d.len() > 0 && d[0] == '+' {
            assert(!is_digit(d@[0]));
            return None;
        }
        match parse_number(d, 0x8000_0000_0000_0000) {
            Some(n) => if n == 0x8000_0000_0000_0000 {
                Some(i64::MIN)
            } else {
                Some(-(n as i64))
            },
            None => None,
        }
    } else {
        match parse_number(s, i64::MAX as u64) {
            Some(n) => Some(n as i64),
            None => None,
        }
    }
}

/// What stands behind a prefix, where it is there.
pub open spec fn after_prefix(s: Seq<char>, prefix: Seq<char>) -> Option<Seq<char>> {
    if begins_with(s, prefix) {
        Some(s.skip(prefix.len() as int))
    } else {
        None
    }
}

/// Takes a prefix away.
pub fn strip_text<'a>(s: &'a [char], prefix: &str) -> (res: Option<&'a [char]>)
    ensures
        match res {
            Some(rest) => after_prefix(s@, prefix@) == Some(rest@),
            None => after_prefix(s@, prefix@) == None::<Seq<char>>,
        },
{
    if starts_with_text(s, prefix) {
        let n: usize = chars_of(prefix).len();
        let rest: &[char] = s.split_at(n).1;
        assert(rest@ =~= s@.skip(prefix@.len() as int));
        Some(rest)
    } else {
        None
    }
}

/// A line without the line feeds and carriage returns behind it.
pub open spec fn without_line_end(s: Seq<char>) -> Seq<char>
    decreases s.len(),
{
    if s.len() > 0 && (s.last() == '\n' || s.last() == '\r') {
        without_line_end(s.drop_last())
    } else {
        s
    }
}

/// Takes away the line feeds and carriage returns behind a line.
pub fn chomp(s: &[char]) -> (out: &[char])
    ensures
        out@ == without_line_end(s@),
{
    let mut rest: &[char] = s;
    while rest.len() > 0 && (rest[rest.len() - 1] == '\n' || rest[rest.len() - 1] == '\r')
        invariant
            without_line_end(rest@) == without_line_end(s@),
        decreases rest@.len(),
    {
        let ghost before = rest@;
        rest = rest.split_at(rest.len() - 1).0;
        assert(rest@ =~= before.drop_last());
    }
    rest
}

/// Calls `std::str::from_utf8`: the text that the bytes encode, and nothing
/// where they are not valid UTF-8.
#[verifier::external_body]
pub(crate) fn utf8_text(bytes: &[u8]) -> (res: Option<String>)
    ensures
        match res {
            Some(s) => valid_utf8(bytes@) && s@ == decode_utf8(bytes@),
            None => !valid_utf8(bytes@),
        },
{
    std::str::from_utf8(bytes).ok().map(|s| s.to_string())
}

/// How long the word is that `s` starts with.
pub open spec fn word_len(s: Seq<char>) -> nat
    decreases s.len(),
{
    if s.len() == 0 || is_white(s[0]) {
        0
    } else {
        1 + word_len(s.skip(1))
    }
}

pub proof fn lemma_word_len(s: Seq<char>)
    ensures
        word_len(s) <= s.len(),
    decreases s.len(),
{
    if s.len() > 0 && !is_white(s[0]) {
        lemma_word_len(s.skip(1));
    }
}

pub proof fn lemma_trim_front(s: Seq<char>)
    ensures
        trim_front(s).len() <= s.len(),
        trim_front(s).len() > 0 ==> !is_white(trim_front(s)[0]),
    decreases s.len(),
{
    if s.len() > 0 && is_white(s[0]) {
        lemma_trim_front(s.skip(1));
    }
}

/// The words of `s`, which white space separates.
pub open spec fn words(s: Seq<char>) -> Seq<Seq<char>>
    decreases s.len(),
{
    proof {
        lemma_trim_front(s);
        lemma_word_len(trim_front(s));
    }
    let t = trim_front(s);
    if t.len() == 0 {
        Seq::empty()
    } else {
        seq![t.take(word_len(t) as int)] + words(t.skip(word_len(t) as int))
    }
}

/// Splits a text into words.
pub fn split_words(s: &str) -> (out: Vec<String>)
    ensures
        texts(out@) == words(s@),
{
    let chars: Vec<char> = chars_of(s);
    let mut out: Vec<String> = Vec::new();
    let mut rest: &[char] = chars.as_slice();
    assert(texts(out@) =~= Seq::<Seq<char>>::empty());
    assert(texts(out@) + words(rest@) =~= words(s@));
    loop
        invariant
            texts(out@) + words(rest@) == words(s@),
        decreases rest@.len(),
    {
        let ghost start = rest@;
        proof {
            lemma_trim_front(start);
        }
        while rest.len() > 0 && white(rest[0])
            invariant
                trim_front(rest@) == trim_front(start),
                rest@.len() <= start.len(),
            decreases rest@.len(),
        {
            let ghost before = rest@;
            rest = rest.split_at(1).1;
            assert(rest@ =~= before.skip(1));
        }
        assert(rest@ == trim_front(start));
        if rest.len() == 0 {
            assert(texts(out@) + words(start) =~= texts(out@));
            return out;
        }
        let mut n: usize = 0;
        assert(rest@.skip(0) =~= rest@);
        while n < rest.len() && !white(rest[n])
            invariant
                n <= rest.len(),
                n + word_len(rest@.skip(n as int)) == word_len(rest@),
            decreases rest@.len() - n,
        {
            assert(rest@.skip(n as int).skip(1) =~= rest@.skip(n + 1));
            n = n + 1;
        }
        let (word, tail) = rest.split_at(n);
        assert(word@ =~= rest@.take(n as int));
        assert(tail@ =~= rest@.skip(n as int));
        let w: String = string_of(word);
        let ghost before = texts(out@);
        proof {
            lemma_texts_push(out@, w);
        }
        out.push(w);
        assert(texts(out@) + words(tail@) =~= before + (seq![word@] + words(tail@)));
        rest = tail;
    }
}

} // verus!
