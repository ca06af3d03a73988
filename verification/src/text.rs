//! What the library knows of the standard string functions that it calls:
//! spec functions that say what decimal and hexadecimal text stands for,
//! and the trusted wrappers around the calls.

use vstd::prelude::*;
use std::num::ParseIntError;

verus! {

/// The error that the standard integer parsers return.
#[verifier::external_type_specification]
#[verifier::external_body]
pub struct ExParseIntError(ParseIntError);

/// The value of an ASCII decimal digit.
pub open spec fn digit_value(c: char) -> Option<nat> {
    if '0' as u32 <= c as u32 <= '9' as u32 {
        Some((c as u32 - '0' as u32) as nat)
    } else {
        None
    }
}

/// The number that a non-empty run of ASCII decimal digits stands for.
pub open spec fn decimal_value(s: Seq<char>) -> Option<nat>
    decreases s.len(),
{
    if s.len() == 0 {
        None
    } else if s.len() == 1 {
        digit_value(s[0])
    } else {
        match (decimal_value(s.drop_last()), digit_value(s.last())) {
            (Some(high), Some(d)) => Some(10 * high + d),
            _ => None,
        }
    }
}

/// What parsing `s` as an unsigned number no larger than `max` gives: an
/// optional `+`, then digits only, and a value within range.
pub open spec fn parse_unsigned(s: Seq<char>, max: nat) -> Option<nat> {
    let digits = if s.len() > 0 && s[0] == '+' {
        s.drop_first()
    } else {
        s
    };
    match decimal_value(digits) {
        Some(v) => if v <= max {
            Some(v)
        } else {
            None
        },
        None => None,
    }
}

/// The shortest run of ASCII decimal digits that stands for `n`.
pub open spec fn decimal_digits(n: nat) -> Seq<char>
    decreases n,
{
    if n < 10 {
        seq![('0' as u32 + n as u32) as char]
    } else {
        decimal_digits(n / 10).push(('0' as u32 + (n % 10) as u32) as char)
    }
}

/// A character with the ASCII upper-case letters folded to lower case.
pub open spec fn ascii_lower(c: char) -> char {
    if 'A' as u32 <= c as u32 <= 'Z' as u32 {
        (c as u32 + 32) as char
    } else {
        c
    }
}

/// Whether two strings are equal once ASCII letters are folded to one case.
pub open spec fn eq_ignoring_ascii_case(a: Seq<char>, b: Seq<char>) -> bool {
    a.map_values(|c: char| ascii_lower(c)) == b.map_values(|c: char| ascii_lower(c))
}

/// Calls `str::parse::<u64>`. Trusted: the standard parser accepts an
/// optional `+` followed by decimal digits only, and fails on an empty
/// string, on any other character and on a value above `u64::MAX`.
#[verifier::external_body]
pub(crate) fn parse_u64(s: &str) -> (r: Result<u64, ParseIntError>)
    ensures
        r is Ok <==> parse_unsigned(s@, u64::MAX as nat) is Some,
        r matches Ok(v) ==> parse_unsigned(s@, u64::MAX as nat) == Some(v as nat),
{
    s.parse::<u64>()
}

/// Calls `str::parse::<u32>`. Trusted: as for the 64-bit parser, with
/// `u32::MAX` as the largest accepted value.
#[verifier::external_body]
pub(crate) fn parse_u32(s: &str) -> (r: Result<u32, ParseIntError>)
    ensures
        r is Ok <==> parse_unsigned(s@, u32::MAX as nat) is Some,
        r matches Ok(v) ==> parse_unsigned(s@, u32::MAX as nat) == Some(v as nat),
{
    s.parse::<u32>()
}

/// Calls `==` on two string slices. Trusted: string slices are equal when
/// they hold the same characters.
#[verifier::external_body]
pub(crate) fn str_eq(a: &str, b: &str) -> (r: bool)
    ensures
        r == (a@ == b@),
{
    a == b
}

/// Calls `str::eq_ignore_ascii_case`. Trusted: the two strings match when
/// they are equal after folding `A`..`Z` to `a`..`z`.
#[verifier::external_body]
pub(crate) fn str_eq_ignore_ascii_case(a: &str, b: &str) -> (r: bool)
    ensures
        r == eq_ignoring_ascii_case(a@, b@),
{
    a.eq_ignore_ascii_case(b)
}

/// Calls `u64::to_string`. Trusted: the standard formatting of an unsigned
/// number is its shortest decimal representation.
#[verifier::external_body]
pub(crate) fn u64_to_string(value: u64) -> (s: String)
    ensures
        s@ == decimal_digits(value as nat),
{
    value.to_string()
}

/// Whether a string starts with another.
pub open spec fn has_prefix(s: Seq<char>, prefix: Seq<char>) -> bool {
    s.len() >= prefix.len() && s.subrange(0, prefix.len() as int) == prefix
}

/// The lower-case hexadecimal digit for a value below sixteen.
pub open spec fn hex_digit(d: nat) -> char {
    if d < 10 {
        ('0' as u32 + d as u32) as char
    } else {
        ('a' as u32 + (d - 10) as u32) as char
    }
}

/// The shortest run of lower-case hexadecimal digits that stands for `n`.
pub open spec fn hex_digits(n: nat) -> Seq<char>
    decreases n,
{
    if n < 16 {
        seq![hex_digit(n)]
    } else {
        hex_digits(n / 16).push(hex_digit(n % 16))
    }
}

/// Calls `str::starts_with` with a string pattern. Trusted: the call tells
/// whether the pattern is a prefix of the string.
#[verifier::external_body]
pub(crate) fn str_starts_with(s: &str, prefix: &str) -> (r: bool)
    ensures
        r == has_prefix(s@, prefix@),
{
    s.starts_with(prefix)
}

} // verus!
