//! Structured scan errors: a kind from a closed set, and the byte span of
//! the offending region.

use vstd::prelude::*;
use vstd::string::StringExecFns;
use crate::tokens::NumericBase;

verus! {

#[derive(Debug, Clone, PartialEq)]
pub enum LexerErrorKind {
    /// A digit that is not valid in the numeric base being scanned.
    InvalidDigit { base: NumericBase, found: char },
    /// A code point that no token can begin with, or malformed UTF-8.
    UnexpectedCharacter { found: char },
    UnterminatedString,
    UnterminatedTemplate,
    UnterminatedComment,
    /// A malformed escape body or an out-of-range code point.
    InvalidEscapeSequence,
    UnexpectedEOF,
    /// A BigInt suffix after a fraction or an exponent.
    InvalidBigInt { reason: String },
    LegacyOctalInStrictMode,
    /// An impossible numeric form, such as a second decimal point.
    UnexpectedNumber,
    /// A punctuator prefix with no entry in the operator table.
    UnexpectedToken,
}

/// A half-open byte range `[start, end)` of the input.
#[derive(Debug, Clone, Copy, PartialEq, Eq, Structural)]
pub struct Span {
    pub start: usize,
    pub end: usize,
}

#[derive(Debug, Clone)]
pub struct LexerError {
    pub kind: LexerErrorKind,
    pub span: Span,
}

impl LexerErrorKind {
    /// The description of each error kind.
    pub open spec fn spec_describe(&self) -> Seq<char> {
        match self {
            LexerErrorKind::InvalidDigit { .. } => "invalid digit for numeric base"@,
            LexerErrorKind::UnexpectedCharacter { .. } => "unexpected character"@,
            LexerErrorKind::UnterminatedString => "unterminated string literal"@,
            LexerErrorKind::UnterminatedTemplate => "unterminated template literal"@,
            LexerErrorKind::UnterminatedComment => "unterminated comment"@,
            LexerErrorKind::InvalidEscapeSequence => "invalid escape sequence"@,
            LexerErrorKind::UnexpectedEOF => "unexpected end of input"@,
            LexerErrorKind::InvalidBigInt { .. } => "invalid BigInt literal"@,
            LexerErrorKind::LegacyOctalInStrictMode => (
            "legacy octal literal not allowed in strict mode"@),
            LexerErrorKind::UnexpectedNumber => "unexpected number"@,
            LexerErrorKind::UnexpectedToken => "unexpected token"@,
        }
    }

    /// A short message describing the error.
    pub fn describe(&self) -> (r: String)
        ensures
            r@ == self.spec_describe(),
    {
        match self {
            LexerErrorKind::InvalidDigit { .. } => String::from_str("invalid digit for numeric base"),
            LexerErrorKind::UnexpectedCharacter { .. } => String::from_str("unexpected character"),
            LexerErrorKind::UnterminatedString => String::from_str("unterminated string literal"),
            LexerErrorKind::UnterminatedTemplate => String::from_str(
                "unterminated template literal",
            ),
            LexerErrorKind::UnterminatedComment => String::from_str("unterminated comment"),
            LexerErrorKind::InvalidEscapeSequence => String::from_str("invalid escape sequence"),
            LexerErrorKind::UnexpectedEOF => String::from_str("unexpected end of input"),
            LexerErrorKind::InvalidBigInt { .. } => String::from_str("invalid BigInt literal"),
            LexerErrorKind::LegacyOctalInStrictMode => String::from_str(
                "legacy octal literal not allowed in strict mode",
            ),
            LexerErrorKind::UnexpectedNumber => String::from_str("unexpected number"),
            LexerErrorKind::UnexpectedToken => String::from_str("unexpected token"),
        }
    }
}

} // verus!
