//! Error type for identifier encoding and decoding.

use vstd::prelude::*;

use crate::strings::common::push_char;

verus! {

/// Errors that can occur while encoding, decoding or comparing identifiers.
#[derive(Debug)]
#[allow(inconsistent_fields)]
pub enum ElidError {
    /// Embedding dimension is outside the valid range for the profile
    InvalidDimension {
        /// The actual dimension provided
        got: usize,
        /// The expected dimension range (min, max)
        expected_range: (usize, usize),
    },
    /// Embedding contains NaN or Inf values
    InvalidValue,
    /// Invalid base32hex encoding in ID string
    InvalidEncoding,
    /// Invalid or corrupted ID header
    InvalidHeader,
    /// Hamming ball radius exceeds maximum allowed value (3)
    RadiusTooLarge(u8),
    /// Profile in ID doesn't match expected profile
    ProfileMismatch {
        /// The expected profile name
        expected: String,
        /// The actual profile name found in the ID
        got: String,
    },
    /// Transform ID not found in profile configuration
    TransformNotFound(u16),
    /// Profile does not support decoding back to embedding
    DecodingNotSupported,
    /// Invalid precision setting
    InvalidPrecision(String),
    /// Dimension projection error
    ProjectionError(String),
    /// Insufficient data in encoded payload
    InsufficientData {
        /// Expected number of bytes
        expected: usize,
        /// Actual number of bytes found
        got: usize,
    },
    /// Invalid metadata in header
    InvalidMetadata(String),
}

/// Decimal digit character for `d < 10`.
pub open spec fn digit_char(d: nat) -> char {
    (48 + d) as char
}

/// Decimal representation of `n` without leading zeros.
pub open spec fn decimal(n: nat) -> Seq<char>
    decreases n,
{
    if n < 10 {
        seq![digit_char(n)]
    } else {
        decimal(n / 10).push(digit_char(n % 10))
    }
}

/// Lowercase hexadecimal digit character for `d < 16`.
pub open spec fn hex_char(d: nat) -> char {
    if d < 10 {
        (48 + d) as char
    } else {
        (97 + d - 10) as char
    }
}

/// Appends the decimal representation of `n` to `s`.
pub fn push_decimal(s: &mut String, n: u64)
    ensures
        final(s)@ == old(s)@ + decimal(n as nat),
    decreases n,
{
    if n >= 10 {
        push_decimal(s, n / 10);
    }
    let d = (n % 10) as u32;
    let c = char_from_digit(d);
    push_char(s, c);
    proof {
        if n >= 10 {
            assert(decimal(n as nat) == decimal((n / 10) as nat).push(digit_char((n % 10) as nat)));
        }
    }
}

fn char_from_digit(d: u32) -> (c: char)
    requires
        d < 16,
    ensures
        c == hex_char(d as nat),
        d < 10 ==> c == digit_char(d as nat),
{
    let table: [char; 16] = [
        '0', '1', '2', '3', '4', '5', '6', '7', '8', '9', 'a', 'b', 'c', 'd', 'e', 'f',
    ];
    table[d as usize]
}

/// Describes a profile type number the way errors report it: `Type 0x..`
/// with the lowercase hexadecimal digit of a 4-bit type.
pub fn profile_type_label(t: u8) -> (s: String)
    requires
        t < 16,
    ensures
        s@ == "Type 0x"@.push(hex_char(t as nat)),
{
    let mut s = String::from_str("Type 0x");
    let c = char_from_digit(t as u32);
    push_char(&mut s, c);
    s
}

/// The text an error is displayed as.
pub open spec fn error_text(e: ElidError) -> Seq<char> {
    match e {
        ElidError::InvalidDimension { got, expected_range } => "Invalid dimension: got "@
            + decimal(got as nat) + ", expected range ("@ + decimal(expected_range.0 as nat)
            + ", "@ + decimal(expected_range.1 as nat) + ")"@,
        ElidError::InvalidValue => "Invalid embedding value (NaN or Inf detected)"@,
        ElidError::InvalidEncoding => "Invalid base32hex encoding"@,
        ElidError::InvalidHeader => "Invalid ID header"@,
        ElidError::RadiusTooLarge(r) => "Hamming radius too large: "@ + decimal(r as nat)
            + " (max 3)"@,
        ElidError::ProfileMismatch { expected, got } => "Profile mismatch: expected "@
            + expected@ + ", got "@ + got@,
        ElidError::TransformNotFound(t) => "Transform not found: ID "@ + decimal(t as nat),
        ElidError::DecodingNotSupported => "Decoding not supported for this profile type"@,
        ElidError::InvalidPrecision(m) => "Invalid precision: "@ + m@,
        ElidError::ProjectionError(m) => "Projection error: "@ + m@,
        ElidError::InsufficientData { expected, got } => "Insufficient data: expected "@
            + decimal(expected as nat) + " bytes, got "@ + decimal(got as nat),
        ElidError::InvalidMetadata(m) => "Invalid metadata in header: "@ + m@,
    }
}

impl ElidError {
    /// The error's message, as it is displayed.
    pub fn message(&self) -> (r: String)
        ensures
            r@ == error_text(*self),
    {
        match self {
            ElidError::InvalidDimension { got, expected_range } => {
                let mut s = String::from_str("Invalid dimension: got ");
                push_decimal(&mut s, *got as u64);
                s.append(", expected range (");
                push_decimal(&mut s, expected_range.0 as u64);
                s.append(", ");
                push_decimal(&mut s, expected_range.1 as u64);
                s.append(")");
                s
            },
            ElidError::InvalidValue => String::from_str("Invalid embedding value (NaN or Inf detected)"),
            ElidError::InvalidEncoding => String::from_str("Invalid base32hex encoding"),
            ElidError::InvalidHeader => String::from_str("Invalid ID header"),
            ElidError::RadiusTooLarge(r) => {
                let mut s = String::from_str("Hamming radius too large: ");
                push_decimal(&mut s, *r as u64);
                s.append(" (max 3)");
                s
            },
            ElidError::ProfileMismatch { expected, got } => {
                let mut s = String::from_str("Profile mismatch: expected ");
                s.append(expected.as_str());
                s.append(", got ");
                s.append(got.as_str());
                s
            },
            ElidError::TransformNotFound(t) => {
                let mut s = String::from_str("Transform not found: ID ");
                push_decimal(&mut s, *t as u64);
                s
            },
            ElidError::DecodingNotSupported => String::from_str(
                "Decoding not supported for this profile type",
            ),
            ElidError::InvalidPrecision(m) => {
                let mut s = String::from_str("Invalid precision: ");
                s.append(m.as_str());
                s
            },
            ElidError::ProjectionError(m) => {
                let mut s = String::from_str("Projection error: ");
                s.append(m.as_str());
                s
            },
            ElidError::InsufficientData { expected, got } => {
                let mut s = String::from_str("Insufficient data: expected ");
                push_decimal(&mut s, *expected as u64);
                s.append(" bytes, got ");
                push_decimal(&mut s, *got as u64);
                s
            },
            ElidError::InvalidMetadata(m) => {
                let mut s = String::from_str("Invalid metadata in header: ");
                s.append(m.as_str());
                s
            },
        }
    }
}

} // verus!
