//! Character classes used by the numeric-literal sub-lexer.

use vstd::prelude::*;

verus! {

/// Namespace for the predicates that classify the code points appearing in
/// numeric literals: digit sets per base, separators, prefixes and suffixes.
pub struct NumberLiteral;

pub open spec fn spec_is_non_zero_digit(c: char) -> bool {
    '1' <= c && c <= '9'
}

pub open spec fn spec_is_decimal_digit(c: char) -> bool {
    '0' <= c && c <= '9'
}

pub open spec fn spec_is_binary_digit(c: char) -> bool {
    c == '0' || c == '1'
}

pub open spec fn spec_is_octal_digit(c: char) -> bool {
    '0' <= c && c <= '7'
}

/// A decimal digit that is not allowed in an octal literal.
pub open spec fn spec_is_non_octal_digit(c: char) -> bool {
    c == '8' || c == '9'
}

pub open spec fn spec_is_hex_digit(c: char) -> bool {
    spec_is_decimal_digit(c) || ('a' <= c && c <= 'f') || ('A' <= c && c <= 'F')
}

pub open spec fn spec_is_exponent_indicator(c: char) -> bool {
    c == 'e' || c == 'E'
}

pub open spec fn spec_is_exponent_sign(c: char) -> bool {
    c == '+' || c == '-'
}

pub open spec fn spec_is_binary_start(c: char) -> bool {
    c == 'b' || c == 'B'
}

pub open spec fn spec_is_hex_start(c: char) -> bool {
    c == 'x' || c == 'X'
}

pub open spec fn spec_is_octal_start(c: char) -> bool {
    c == 'o' || c == 'O'
}

pub open spec fn spec_is_decimal_separator(c: char) -> bool {
    c == '.'
}

pub open spec fn spec_is_numeric_literal_separator(c: char) -> bool {
    c == '_'
}

pub open spec fn spec_is_bigint_suffix(c: char) -> bool {
    c == 'n'
}

impl NumberLiteral {
    pub fn is_non_zero_digit(c: char) -> (r: bool)
        ensures
            r == spec_is_non_zero_digit(c),
    {
        '1' <= c && c <= '9'
    }

    pub fn is_decimal_digit(c: char) -> (r: bool)
        ensures
            r == spec_is_decimal_digit(c),
    {
        '0' <= c && c <= '9'
    }

    pub fn is_exponent_indicator(c: char) -> (r: bool)
        ensures
            r == spec_is_exponent_indicator(c),
    {
        c == 'e' || c == 'E'
    }

    pub fn is_binary_digit(c: char) -> (r: bool)
        ensures
            r == spec_is_binary_digit(c),
    {
        c == '0' || c == '1'
    }

    pub fn is_octal_digit(c: char) -> (r: bool)
        ensures
            r == spec_is_octal_digit(c),
    {
        '0' <= c && c <= '7'
    }

    pub fn is_non_octal_digit(c: char) -> (r: bool)
        ensures
            r == spec_is_non_octal_digit(c),
    {
        c == '8' || c == '9'
    }

    pub fn is_hex_digit(c: char) -> (r: bool)
        ensures
            r == spec_is_hex_digit(c),
    {
        ('0' <= c && c <= '9') || ('a' <= c && c <= 'f') || ('A' <= c && c <= 'F')
    }

    pub fn is_exponent_sign(c: char) -> (r: bool)
        ensures
            r == spec_is_exponent_sign(c),
    {
        c == '+' || c == '-'
    }

    pub fn is_binary_start(c: char) -> (r: bool)
        ensures
            r == spec_is_binary_start(c),
    {
        c == 'b' || c == 'B'
    }

    pub fn is_hex_start(c: char) -> (r: bool)
        ensures
            r == spec_is_hex_start(c),
    {
        c == 'x' || c == 'X'
    }

    pub fn is_octal_start(c: char) -> (r: bool)
        ensures
            r == spec_is_octal_start(c),
    {
        c == 'o' || c == 'O'
    }

    pub fn is_exponent_start(c: char) -> (r: bool)
        ensures
            r == spec_is_exponent_indicator(c),
    {
        c == 'e' || c == 'E'
    }

    pub fn is_decimal_separator(c: char) -> (r: bool)
        ensures
            r == spec_is_decimal_separator(c),
    {
        c == '.'
    }

    pub fn is_numeric_literal_separator(c: char) -> (r: bool)
        ensures
            r == spec_is_numeric_literal_separator(c),
    {
        c == '_'
    }

    pub fn is_bigint_suffix(c: char) -> (r: bool)
        ensures
            r == spec_is_bigint_suffix(c),
    {
        c == 'n'
    }
}

} // verus!
