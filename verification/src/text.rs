//! Building the library's error messages: appending text and characters to
//! a `String`, and writing an unsigned number in decimal.

use vstd::prelude::*;

verus! {

/// `String::push_str`: appends the string slice `t` to the end of `s`.
#[verifier::external_body]
fn push_text(s: &mut String, t: &str)
    ensures
        final(s)@ == old(s)@ + t@,
{
    s.push_str(t);
}

/// `String::push`: appends the character `c` to the end of `s`.
#[verifier::external_body]
fn push_char(s: &mut String, c: char)
    ensures
        final(s)@ == old(s)@.push(c),
{
    s.push(c);
}

/// The character of decimal digit `d` (`'0'` to `'9'`).
pub open spec fn digit_char(d: nat) -> char {
    (d + 48) as char
}

/// `n` written in decimal, without leading zeros.
pub open spec fn decimal(n: nat) -> Seq<char>
    decreases n,
{
    if n < 10 {
        seq![digit_char(n)]
    } else {
        decimal(n / 10).push(digit_char(n % 10))
    }
}

/// Append `n` in decimal to `s`.
pub(crate) fn push_decimal(s: &mut String, n: u64)
    ensures
        final(s)@ == old(s)@ + decimal(n as nat),
    decreases n,
{
    if n >= 10 {
        push_decimal(s, n / 10);
    }
    let d: u8 = (n % 10) as u8;
    let c: char = (d + 48) as char;
    push_char(s, c);
    proof {
        if n >= 10 {
            assert(s@ =~= old(s)@ + decimal(n as nat));
        } else {
            assert(s@ =~= old(s)@ + decimal(n as nat));
        }
    }
}

/// A new string holding `a`, then `n` in decimal, then `b`.
pub(crate) fn text_around_number(a: &str, n: u64, b: &str) -> (r: String)
    ensures
        r@ == a@ + decimal(n as nat) + b@,
{
    let mut s = String::new();
    push_text(&mut s, a);
    push_decimal(&mut s, n);
    push_text(&mut s, b);
    assert(s@ =~= a@ + decimal(n as nat) + b@);
    s
}

/// A new string holding `a`, then `b`.
pub(crate) fn text_then(a: &str, b: &String) -> (r: String)
    ensures
        r@ == a@ + b@,
{
    let mut s = String::new();
    push_text(&mut s, a);
    push_text(&mut s, b.as_str());
    assert(s@ =~= a@ + b@);
    s
}

/// A new string holding `a`.
pub(crate) fn text_of(a: &str) -> (r: String)
    ensures
        r@ == a@,
{
    let mut s = String::new();
    push_text(&mut s, a);
    assert(s@ =~= a@);
    s
}

} // verus!
