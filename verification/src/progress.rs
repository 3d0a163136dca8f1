//! Times in a progress line.

use vstd::prelude::*;

use crate::text::{decimal, digit, push_decimal};

verus! {

/// Two digits.
pub open spec fn two_digits(n: nat) -> Seq<char> {
    seq![digit(n / 10), digit(n % 10)]
}

/// A number of seconds in hours, minutes and seconds.
pub open spec fn clock(secs: nat) -> Seq<char> {
    decimal(secs / 3600) + ":"@ + two_digits(secs % 3600 / 60) + ":"@ + two_digits(secs % 60)
}

fn push_two(s: &mut String, n: u64)
    requires
        n < 100,
    ensures
        final(s)@ == old(s)@ + two_digits(n as nat),
{
    s.push(((n / 10) as u8 + 48) as char);
    s.push(((n % 10) as u8 + 48) as char);
    assert(s@ =~= old(s)@ + two_digits(n as nat));
}

/// Writes how long a transfer took, as `h:mm:ss`.
pub fn format_elapsed(secs: u64) -> (s: String)
    ensures
        s@ == clock(secs as nat),
{
    let mut s: String = String::new();
    push_decimal(&mut s, secs / 3600);
    s.push_str(":");
    push_two(&mut s, secs % 3600 / 60);
    s.push_str(":");
    push_two(&mut s, secs % 60);
    assert(s@ =~= clock(secs as nat));
    s
}

/// Writes how long a transfer will still take, as `h:mm:ss` behind two blanks.
pub fn format_eta(secs: u64) -> (s: String)
    ensures
        s@ == "  "@ + clock(secs as nat),
{
    let mut s: String = String::new();
    s.push_str("  ");
    s.push_str(format_elapsed(secs).as_str());
    assert(s@ =~= "  "@ + clock(secs as nat));
    s
}

} // verus!
