//! Character classes of the PDF lexical syntax (ISO 32000-1 7.2).

use vstd::prelude::*;

verus! {

/// White-space characters (ISO 32000-1 Table 1).
pub open spec fn spec_is_whitespace(c: u8) -> bool {
    c == 0u8 || c == 9u8 || c == 10u8 || c == 12u8 || c == 13u8 || c == 32u8
}

/// Delimiter characters (ISO 32000-1 Table 2).
pub open spec fn spec_is_delimiter(c: u8) -> bool {
    c == 40u8 || c == 41u8 || c == 60u8 || c == 62u8 || c == 91u8 || c == 93u8 || c == 123u8
        || c == 125u8 || c == 47u8 || c == 37u8
}

/// Regular characters: neither white space nor delimiters.
pub open spec fn spec_is_regular(c: u8) -> bool {
    !spec_is_whitespace(c) && !spec_is_delimiter(c)
}

/// Whether `c` is a white-space character.
pub fn is_whitespace(c: u8) -> (b: bool)
    ensures
        b == spec_is_whitespace(c),
{
    c == 0u8 || c == 9u8 || c == 10u8 || c == 12u8 || c == 13u8 || c == 32u8
}

/// Whether `c` is a delimiter character.
pub fn is_delimiter(c: u8) -> (b: bool)
    ensures
        b == spec_is_delimiter(c),
{
    c == 40u8 || c == 41u8 || c == 60u8 || c == 62u8 || c == 91u8 || c == 93u8 || c == 123u8
        || c == 125u8 || c == 47u8 || c == 37u8
}

/// The upper-case hexadecimal digit for `n` (0 through 15).
pub open spec fn hex_digit(n: int) -> u8 {
    if n < 10 {
        (48 + n) as u8
    } else {
        (55 + n) as u8
    }
}

/// The value of a hexadecimal digit (either case), if `c` is one.
pub open spec fn hex_value(c: u8) -> Option<u8> {
    if 48 <= c <= 57 {
        Some((c - 48) as u8)
    } else if 65 <= c <= 70 {
        Some((c - 55) as u8)
    } else if 97 <= c <= 102 {
        Some((c - 87) as u8)
    } else {
        None
    }
}

/// The upper-case hexadecimal digit for `n`.
pub fn hex_digit_exec(n: u8) -> (c: u8)
    requires
        n < 16,
    ensures
        c == hex_digit(n as int),
{
    if n < 10 {
        48 + n
    } else {
        55 + n
    }
}

/// The value of a hexadecimal digit, if `c` is one.
pub fn hex_value_exec(c: u8) -> (r: Option<u8>)
    ensures
        r == hex_value(c),
{
    if 48 <= c && c <= 57 {
        Some(c - 48)
    } else if 65 <= c && c <= 70 {
        Some(c - 55)
    } else if 97 <= c && c <= 102 {
        Some(c - 87)
    } else {
        None
    }
}

/// An upper-case digit reads back as its value.
pub proof fn lemma_hex_digit_value(n: int)
    requires
        0 <= n < 16,
    ensures
        hex_value(hex_digit(n)) == Some(n as u8),
{
}

} // verus!
