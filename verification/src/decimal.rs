//! Decimal notation for integers: what a field or an argument must look
//! like to be read as a number, and how a result is written out.

use vstd::prelude::*;

verus! {

/// `c` is one of the ten ASCII digits.
pub open spec fn is_digit(c: char) -> bool {
    '0' <= c <= '9'
}

/// The number that the ASCII digit `c` stands for.
pub open spec fn digit_value(c: char) -> int {
    c as int - '0' as int
}

/// The ASCII digit that stands for `d`, for `d` from 0 to 9.
pub open spec fn digit_char(d: int) -> char {
    seq!['0', '1', '2', '3', '4', '5', '6', '7', '8', '9'][d]
}

/// Every character of `text` is an ASCII digit.
pub open spec fn all_digits(text: Seq<char>) -> bool {
    forall|i: int| 0 <= i < text.len() ==> is_digit(#[trigger] text[i])
}

/// The number written by a run of digits, most significant digit first.
pub open spec fn digits_value(digits: Seq<char>) -> int
    decreases digits.len(),
{
    if digits.len() == 0 {
        0
    } else {
        digits_value(digits.drop_last()) * 10 + digit_value(digits.last())
    }
}

/// The number written by `text`, if `text` is a run of one or more digits.
pub open spec fn plain_value(text: Seq<char>) -> Option<int> {
    if text.len() > 0 && all_digits(text) {
        Some(digits_value(text))
    } else {
        None
    }
}

/// The integer written by `text`: an optional `+` or `-`, then one or more
/// digits and nothing else.
pub open spec fn signed_value(text: Seq<char>) -> Option<int> {
    if text.len() > 0 && text[0] == '-' {
        match plain_value(text.skip(1)) {
            Some(n) => Some(-n),
            None => None,
        }
    } else if text.len() > 0 && text[0] == '+' {
        plain_value(text.skip(1))
    } else {
        plain_value(text)
    }
}

/// The natural number written by `text`: an optional `+`, then one or more
/// digits and nothing else.
pub open spec fn unsigned_value(text: Seq<char>) -> Option<int> {
    if text.len() > 0 && text[0] == '+' {
        plain_value(text.skip(1))
    } else {
        plain_value(text)
    }
}

/// `text` read as a signed 64-bit integer; `None` where it is no integer
/// or the integer does not fit.
pub open spec fn decimal_i64(text: Seq<char>) -> Option<i64> {
    match signed_value(text) {
        Some(n) if i64::MIN <= n <= i64::MAX => Some(n as i64),
        _ => None,
    }
}

/// `text` read as a column index; `None` where it is no natural number or
/// the number does not fit.
pub open spec fn decimal_usize(text: Seq<char>) -> Option<usize> {
    match unsigned_value(text) {
        Some(n) if n <= usize::MAX => Some(n as usize),
        _ => None,
    }
}

/// The digits of `n`, most significant first, without leading zeros.
pub open spec fn natural_text(n: nat) -> Seq<char>
    decreases n,
{
    if n < 10 {
        seq![digit_char(n as int)]
    } else {
        natural_text(n / 10).push(digit_char((n % 10) as int))
    }
}

/// `n` in decimal notation, with a leading `-` where it is negative.
pub open spec fn integer_text(n: int) -> Seq<char> {
    if n < 0 {
        seq!['-'] + natural_text((-n) as nat)
    } else {
        natural_text(n as nat)
    }
}

/// `str::parse::<i64>`: std documents that it accepts an optional `+` or
/// `-` sign followed by decimal digits only, and fails on anything else,
/// the empty string and a number outside the type's range included.
#[verifier::external_body]
pub(crate) fn parse_i64(text: &str) -> (value: Option<i64>)
    ensures
        value == decimal_i64(text@),
{
    text.parse::<i64>().ok()
}

/// `str::parse::<usize>`: std documents that it accepts an optional `+`
/// sign followed by decimal digits only, and fails on anything else, the
/// empty string and a number outside the type's range included.
#[verifier::external_body]
pub(crate) fn parse_usize(text: &str) -> (value: Option<usize>)
    ensures
        value == decimal_usize(text@),
{
    text.parse::<usize>().ok()
}

/// `i64::to_string`: std's `Display` for integers writes the decimal
/// digits without leading zeros, after a `-` for a negative number.
#[verifier::external_body]
pub(crate) fn i64_text(value: i64) -> (text: String)
    ensures
        text@ == integer_text(value as int),
{
    value.to_string()
}

/// `usize::to_string`: as for `i64`, and never a sign.
#[verifier::external_body]
pub(crate) fn usize_text(value: usize) -> (text: String)
    ensures
        text@ == integer_text(value as int),
{
    value.to_string()
}

} // verus!
