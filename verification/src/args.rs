//! Helper types for numbers given on a command line: zero as "absent", and
//! the word `max` for the largest value of a type.

use vstd::prelude::*;
use std::num::ParseIntError;
use std::str::FromStr;
use crate::text::{
    decimal_digits,
    eq_ignoring_ascii_case,
    parse_u32,
    parse_u64,
    parse_unsigned,
    str_eq,
    str_eq_ignore_ascii_case,
    u64_to_string,
};

verus! {

/// A helper type that maps `0` to `None` when parsing CLI arguments.
#[derive(Debug, Clone, Copy, PartialEq, Eq, Structural)]
pub struct ZeroAsNone(pub Option<u64>);

impl ZeroAsNone {
    /// Wraps a value as present, whatever it is.
    pub fn new(value: u64) -> (r: Self)
        ensures
            r.0 == Some(value),
    {
        Self(Some(value))
    }

    /// Returns the inner value or `u64::MAX` if `None`.
    pub fn unwrap_or_max(self) -> (r: u64)
        ensures
            r == match self.0 {
                Some(v) => v,
                None => u64::MAX,
            },
    {
        match self.0 {
            Some(v) => v,
            None => u64::MAX,
        }
    }

    /// What [`ZeroAsNone::parse`] makes of a string: the parsed number, with
    /// zero turned into `None`.
    pub open spec fn parse_spec(s: Seq<char>) -> Option<ZeroAsNone> {
        match parse_unsigned(s, u64::MAX as nat) {
            Some(v) => Some(
                ZeroAsNone(
                    if v == 0 {
                        None
                    } else {
                        Some(v as u64)
                    },
                ),
            ),
            None => None,
        }
    }

    /// Parses a decimal number, mapping zero to `None`.
    pub fn parse(s: &str) -> (r: Result<Self, ParseIntError>)
        ensures
            r is Ok <==> Self::parse_spec(s@) is Some,
            r matches Ok(v) ==> Self::parse_spec(s@) == Some(v),
    {
        match parse_u64(s) {
            Ok(value) => Ok(
                Self(
                    if value == 0 {
                        None
                    } else {
                        Some(value)
                    },
                ),
            ),
            Err(e) => Err(e),
        }
    }

    /// The text form: the value in decimal, `0` for `None`.
    pub fn to_string(&self) -> (s: String)
        ensures
            s@ == decimal_digits(
                match self.0 {
                    Some(v) => v as nat,
                    None => 0,
                },
            ),
    {
        match self.0 {
            Some(value) => u64_to_string(value),
            None => u64_to_string(0),
        }
    }
}

impl FromStr for ZeroAsNone {
    type Err = ParseIntError;

    /// Parses as [`ZeroAsNone::parse`] does.
    fn from_str(s: &str) -> (r: Result<Self, ParseIntError>)
        ensures
            r is Ok <==> Self::parse_spec(s@) is Some,
            r matches Ok(v) ==> Self::parse_spec(s@) == Some(v),
    {
        Self::parse(s)
    }
}

/// A helper type for parsing "max" as `u32::MAX`.
#[derive(Debug, Clone, Copy, PartialEq, Eq, Structural)]
pub struct MaxU32(pub u32);

impl MaxU32 {
    /// What [`MaxU32::parse`] makes of a string: `u32::MAX` for the exact
    /// word `max`, and otherwise the parsed number.
    pub open spec fn parse_spec(s: Seq<char>) -> Option<MaxU32> {
        if s == "max"@ {
            Some(MaxU32(u32::MAX))
        } else {
            match parse_unsigned(s, u32::MAX as nat) {
                Some(v) => Some(MaxU32(v as u32)),
                None => None,
            }
        }
    }

    /// Parses `max` or a decimal number.
    pub fn parse(s: &str) -> (r: Result<Self, ParseIntError>)
        ensures
            r is Ok <==> Self::parse_spec(s@) is Some,
            r matches Ok(v) ==> Self::parse_spec(s@) == Some(v),
    {
        if str_eq(s, "max") {
            Ok(MaxU32(u32::MAX))
        } else {
            match parse_u32(s) {
                Ok(value) => Ok(MaxU32(value)),
                Err(e) => Err(e),
            }
        }
    }

    /// The text form: the value in decimal.
    pub fn to_string(&self) -> (s: String)
        ensures
            s@ == decimal_digits(self.0 as nat),
    {
        u64_to_string(self.0 as u64)
    }
}

impl FromStr for MaxU32 {
    type Err = ParseIntError;

    /// Parses as [`MaxU32::parse`] does.
    fn from_str(s: &str) -> (r: Result<Self, ParseIntError>)
        ensures
            r is Ok <==> Self::parse_spec(s@) is Some,
            r matches Ok(v) ==> Self::parse_spec(s@) == Some(v),
    {
        Self::parse(s)
    }
}

/// A 32-bit value that may be written as `max` in any letter case.
#[derive(Debug, Clone, Copy, PartialEq, Eq, Structural)]
pub struct U32(pub u32);

impl U32 {
    /// What [`U32::parse`] makes of a string: `u32::MAX` for the word `max`
    /// in any letter case, and otherwise the parsed number.
    pub open spec fn parse_spec(s: Seq<char>) -> Option<U32> {
        if eq_ignoring_ascii_case(s, "max"@) {
            Some(U32(u32::MAX))
        } else {
            match parse_unsigned(s, u32::MAX as nat) {
                Some(v) => Some(U32(v as u32)),
                None => None,
            }
        }
    }

    /// Parses `max`, in any letter case, or a decimal number.
    pub fn parse(s: &str) -> (r: Result<Self, ParseIntError>)
        ensures
            r is Ok <==> Self::parse_spec(s@) is Some,
            r matches Ok(v) ==> Self::parse_spec(s@) == Some(v),
    {
        if str_eq_ignore_ascii_case(s, "max") {
            Ok(U32(u32::MAX))
        } else {
            match parse_u32(s) {
                Ok(value) => Ok(U32(value)),
                Err(e) => Err(e),
            }
        }
    }

    /// The text form: the value in decimal.
    pub fn to_string(&self) -> (s: String)
        ensures
            s@ == decimal_digits(self.0 as nat),
    {
        u64_to_string(self.0 as u64)
    }
}

impl FromStr for U32 {
    type Err = ParseIntError;

    /// Parses as [`U32::parse`] does.
    fn from_str(s: &str) -> (r: Result<Self, ParseIntError>)
        ensures
            r is Ok <==> Self::parse_spec(s@) is Some,
            r matches Ok(v) ==> Self::parse_spec(s@) == Some(v),
    {
        Self::parse(s)
    }
}

/// A 64-bit value that may be written as `max` in any letter case.
#[derive(Debug, Clone, Copy, PartialEq, Eq, Structural)]
pub struct U64(pub u64);

impl U64 {
    /// What [`U64::parse`] makes of a string: `u64::MAX` for the word `max`
    /// in any letter case, and otherwise the parsed number.
    pub open spec fn parse_spec(s: Seq<char>) -> Option<U64> {
        if eq_ignoring_ascii_case(s, "max"@) {
            Some(U64(u64::MAX))
        } else {
            match parse_unsigned(s, u64::MAX as nat) {
                Some(v) => Some(U64(v as u64)),
                None => None,
            }
        }
    }

    /// Parses `max`, in any letter case, or a decimal number.
    pub fn parse(s: &str) -> (r: Result<Self, ParseIntError>)
        ensures
            r is Ok <==> Self::parse_spec(s@) is Some,
            r matches Ok(v) ==> Self::parse_spec(s@) == Some(v),
    {
        if str_eq_ignore_ascii_case(s, "max") {
            Ok(U64(u64::MAX))
        } else {
            match parse_u64(s) {
                Ok(value) => Ok(U64(value)),
                Err(e) => Err(e),
            }
        }
    }

    /// The text form: the value in decimal.
    pub fn to_string(&self) -> (s: String)
        ensures
            s@ == decimal_digits(self.0 as nat),
    {
        u64_to_string(self.0)
    }
}

impl FromStr for U64 {
    type Err = ParseIntError;

    /// Parses as [`U64::parse`] does.
    fn from_str(s: &str) -> (r: Result<Self, ParseIntError>)
        ensures
            r is Ok <==> Self::parse_spec(s@) is Some,
            r matches Ok(v) ==> Self::parse_spec(s@) == Some(v),
    {
        Self::parse(s)
    }
}

} // verus!
