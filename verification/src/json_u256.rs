//! A 256-bit number as it appears in JSON: a hexadecimal string with `0x`
//! in front, a decimal string, or a plain number.
//!
//! The digits are read and written by `alloy_primitives::U256`; this module
//! decides which reading applies and what an empty string means.

use vstd::prelude::*;
use vstd::string::StringExecFns;
use std::str::FromStr;
use crate::primitives::{limbs_value, U256};
use crate::text::{decimal_digits, has_prefix, hex_digits, str_eq, str_starts_with};

verus! {

/// What `alloy_primitives::U256::from_str` makes of a string: the limbs of
/// the number, least significant first, or the text of its error.
pub uninterp spec fn u256_from_str(s: Seq<char>) -> Result<Seq<u64>, Seq<char>>;

/// What `alloy_primitives::U256::from_str_radix` makes of a string in
/// radix ten: the limbs of the number, or the debug text of its error.
pub uninterp spec fn u256_from_decimal(s: Seq<char>) -> Result<Seq<u64>, Seq<char>>;

/// A parsing result by its views.
pub open spec fn parsed_view(r: Result<U256, String>) -> Result<Seq<u64>, Seq<char>> {
    match r {
        Ok(v) => Ok(v.limbs@),
        Err(e) => Err(e@),
    }
}

/// Calls `alloy_primitives::U256::from_str`, which reads a number with an
/// optional radix prefix. Trusted: the result depends on the string alone;
/// nothing is claimed of which strings are accepted.
#[verifier::external_body]
fn parse_prefixed(s: &str) -> (r: Result<U256, String>)
    ensures
        parsed_view(r) == u256_from_str(s@),
{
    match alloy_primitives::U256::from_str(s) {
        Ok(v) => Ok(U256 { limbs: *v.as_limbs() }),
        Err(e) => Err(format!("{e}")),
    }
}

/// Calls `alloy_primitives::U256::from_str_radix` with radix ten. Trusted:
/// the result depends on the string alone; nothing is claimed of which
/// strings are accepted.
#[verifier::external_body]
fn parse_decimal(s: &str) -> (r: Result<U256, String>)
    ensures
        parsed_view(r) == u256_from_decimal(s@),
{
    match alloy_primitives::U256::from_str_radix(s, 10) {
        Ok(v) => Ok(U256 { limbs: *v.as_limbs() }),
        Err(e) => Err(format!("{e:?}")),
    }
}

/// Formats an `alloy_primitives::U256` with `{:x}`. Trusted: the text is
/// the number in lower-case hexadecimal digits, without a prefix and
/// without leading zeros.
#[verifier::external_body]
fn format_hex(value: &U256) -> (s: String)
    ensures
        s@ == hex_digits(limbs_value(value.limbs@)),
{
    format!("{:x}", alloy_primitives::U256::from_limbs(value.limbs))
}

/// Formats an `alloy_primitives::U256` with `{}`. Trusted: the text is the
/// number in decimal digits, without leading zeros.
#[verifier::external_body]
fn format_decimal(value: &U256) -> (s: String)
    ensures
        s@ == decimal_digits(limbs_value(value.limbs@)),
{
    format!("{}", alloy_primitives::U256::from_limbs(value.limbs))
}

/// Why a string was not accepted as a number.
#[derive(Debug, Clone, PartialEq, Eq)]
pub enum JsonU256Error {
    /// The string starts with `0x` and is no hexadecimal number; the
    /// message names the string and the reason.
    Hex(String),
    /// The string is no decimal number; the message names the string and
    /// the reason.
    Decimal(String),
}

impl JsonU256Error {
    /// The message of the error.
    pub fn message(&self) -> (m: &String)
        ensures
            m@ == self.message_spec(),
    {
        match self {
            JsonU256Error::Hex(m) => m,
            JsonU256Error::Decimal(m) => m,
        }
    }

    /// The message of the error.
    pub open spec fn message_spec(&self) -> Seq<char> {
        match self {
            JsonU256Error::Hex(m) => m@,
            JsonU256Error::Decimal(m) => m@,
        }
    }
}

/// Wrapper around the primitive 256-bit number that also reads numbers
/// given as strings.
#[derive(Debug, PartialEq, Eq, Hash, Clone, Copy)]
pub struct JsonU256(pub U256);

/// What reading a string gives, by the limbs of the number or the message
/// of the error.
pub enum Parsed {
    Number(Seq<u64>),
    HexError(Seq<char>),
    DecimalError(Seq<char>),
}

impl JsonU256 {
    /// What [`JsonU256::parse_str`] makes of a string: zero for the empty
    /// string and for a bare `0x`; the hexadecimal reading for a string
    /// that starts with `0x`; the decimal reading for any other.
    pub open spec fn parse_spec(s: Seq<char>) -> Parsed {
        if s.len() == 0 || s == "0x"@ {
            Parsed::Number(seq![0u64, 0u64, 0u64, 0u64])
        } else if has_prefix(s, "0x"@) {
            match u256_from_str(s) {
                Ok(limbs) => Parsed::Number(limbs),
                Err(e) => Parsed::HexError("Parsing JsonU256 as hex failed "@ + s + ": "@ + e),
            }
        } else {
            match u256_from_decimal(s) {
                Ok(limbs) => Parsed::Number(limbs),
                Err(e) => Parsed::DecimalError(
                    "Parsing JsonU256 as decimal failed "@ + s + ": "@ + e,
                ),
            }
        }
    }

    /// Reads a number from a string in hexadecimal or decimal format.
    pub fn parse_str(value: &str) -> (r: Result<JsonU256, JsonU256Error>)
        ensures
            match Self::parse_spec(value@) {
                Parsed::Number(limbs) => r matches Ok(v) && v.0.limbs@ == limbs,
                Parsed::HexError(m) => r matches Err(JsonU256Error::Hex(e)) && e@ == m,
                Parsed::DecimalError(m) => r matches Err(JsonU256Error::Decimal(e)) && e@ == m,
            },
    {
        if value.is_empty() || str_eq(value, "0x") {
            return Ok(JsonU256(U256::zero()));
        }
        if str_starts_with(value, "0x") {
            match parse_prefixed(value) {
                Ok(v) => Ok(JsonU256(v)),
                Err(e) => {
                    let message = "Parsing JsonU256 as hex failed ".to_owned().concat(
                        value,
                    ).concat(": ").concat(e.as_str());
                    Err(JsonU256Error::Hex(message))
                },
            }
        } else {
            match parse_decimal(value) {
                Ok(v) => Ok(JsonU256(v)),
                Err(e) => {
                    let message = "Parsing JsonU256 as decimal failed ".to_owned().concat(
                        value,
                    ).concat(": ").concat(e.as_str());
                    Err(JsonU256Error::Decimal(message))
                },
            }
        }
    }

    /// The number that a JSON number stands for.
    pub fn from_u64(value: u64) -> (r: JsonU256)
        ensures
            r.0.limbs@ == seq![value, 0u64, 0u64, 0u64],
            r.0@ == value as nat,
    {
        JsonU256(U256::from_u64(value))
    }

    /// Returns the hexadecimal representation of the `JsonU256` value.
    pub fn to_hex_string(&self) -> (s: String)
        ensures
            s@ == hex_digits(self.0@),
    {
        format_hex(&self.0)
    }

    /// Returns the decimal representation of the `JsonU256` value.
    pub fn to_dec_string(&self) -> (s: String)
        ensures
            s@ == decimal_digits(self.0@),
    {
        format_decimal(&self.0)
    }
}

impl Default for JsonU256 {
    fn default() -> (r: JsonU256)
        ensures
            r.0@ == 0,
    {
        JsonU256(U256::zero())
    }
}

/// Convert from `JsonU256` to `U256`.
impl From<JsonU256> for U256 {
    fn from(value: JsonU256) -> (r: U256) {
        value.0
    }
}

impl vstd::std_specs::convert::FromSpecImpl<JsonU256> for U256 {
    open spec fn obeys_from_spec() -> bool {
        true
    }

    open spec fn from_spec(value: JsonU256) -> U256 {
        value.0
    }
}

/// Convert from `U256` to `JsonU256`.
impl From<U256> for JsonU256 {
    fn from(value: U256) -> (r: JsonU256) {
        JsonU256(value)
    }
}

impl vstd::std_specs::convert::FromSpecImpl<U256> for JsonU256 {
    open spec fn obeys_from_spec() -> bool {
        true
    }

    open spec fn from_spec(value: U256) -> JsonU256 {
        JsonU256(value)
    }
}

} // verus!
