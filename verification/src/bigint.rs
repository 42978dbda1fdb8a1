//! Arbitrary-precision values of BigInt literals, computed by the
//! `num_bigint` crate from the canonical digit text of a numeric token.

use vstd::prelude::*;
use crate::tokens::Token;
use crate::tokens::TokenKind;
use crate::tokens::NumericBase;
use crate::tokens::is_binary_digit_byte;
use crate::tokens::is_decimal_digit_byte;
use crate::tokens::is_hex_digit_byte;
use crate::tokens::is_octal_digit_byte;

verus! {

#[verifier::external_type_specification]
#[verifier::external_body]
pub struct ExBigInt(num_bigint::BigInt);

/// The radix in which a literal of the given base is written.
pub open spec fn spec_radix(base: NumericBase) -> u32 {
    match base {
        NumericBase::Decimal => 10,
        NumericBase::Hex => 16,
        NumericBase::Binary => 2,
        NumericBase::Octal => 8,
    }
}

/// Whether `b` is an ASCII digit byte whose value is below the radix.
pub open spec fn is_radix_digit_byte(radix: u32, b: u8) -> bool {
    if radix == 16 {
        is_hex_digit_byte(b)
    } else if radix == 10 {
        is_decimal_digit_byte(b)
    } else if radix == 8 {
        is_octal_digit_byte(b)
    } else {
        is_binary_digit_byte(b)
    }
}

pub fn radix_of_base(base: NumericBase) -> (r: u32)
    ensures
        r == spec_radix(base),
{
    match base {
        NumericBase::Decimal => 10,
        NumericBase::Hex => 16,
        NumericBase::Binary => 2,
        NumericBase::Octal => 8,
    }
}

/// True exactly when every byte of `digits` is a digit of the radix.
pub fn all_radix_digits(digits: &Vec<u8>, radix: u32) -> (r: bool)
    ensures
        r == (forall|i: int|
            0 <= i < digits@.len() ==> is_radix_digit_byte(radix, #[trigger] digits@[i])),
{
    let mut i: usize = 0;
    while i < digits.len()
        invariant
            i <= digits@.len(),
            forall|j: int| 0 <= j < i ==> is_radix_digit_byte(radix, #[trigger] digits@[j]),
        decreases digits@.len() - i,
    {
        if !is_radix_digit(radix, digits[i]) {
            assert(!is_radix_digit_byte(radix, digits@[i as int]));
            return false;
        }
        i = i + 1;
    }
    true
}

pub fn is_radix_digit(radix: u32, b: u8) -> (r: bool)
    ensures
        r == is_radix_digit_byte(radix, b),
{
    if radix == 16 {
        (48 <= b && b <= 57) || (97 <= b && b <= 102) || (65 <= b && b <= 70)
    } else if radix == 10 {
        48 <= b && b <= 57
    } else if radix == 8 {
        48 <= b && b <= 55
    } else {
        b == 48 || b == 49
    }
}

/// The integer that `num_bigint` parses from a string of digit bytes in a
/// radix; it depends on the digits and the radix alone.
pub uninterp spec fn bigint_of(digits: Seq<u8>, radix: u32) -> num_bigint::BigInt;

/// Relies on `num_bigint::BigInt::parse_bytes`: for a buffer made only of
/// ASCII digit bytes valid in the radix, it returns the parsed integer, and
/// `None` exactly when the buffer is empty.
#[verifier::external_body]
fn parse_bigint_digits(digits: &Vec<u8>, radix: u32) -> (r: Option<num_bigint::BigInt>)
    requires
        radix == 2 || radix == 8 || radix == 10 || radix == 16,
        forall|i: int|
            0 <= i < digits@.len() ==> is_radix_digit_byte(radix, #[trigger] digits@[i]),
    ensures
        r is Some <==> digits@.len() > 0,
        (r matches Some(v) ==> v == bigint_of(digits@, radix)),
{
    num_bigint::BigInt::parse_bytes(digits.as_slice(), radix)
}

/// A BigInt numeric literal whose canonical digit text is nonempty and made
/// only of digits of its base, so that an arbitrary-precision parse succeeds.
pub open spec fn spec_bigint_parsable(kind: TokenKind) -> bool {
    match kind {
        TokenKind::NumericLiteral { canonical, base, is_bigint, .. } => is_bigint
            && canonical@.len() > 0 && (forall|i: int|
            0 <= i < canonical@.len() ==> is_radix_digit_byte(
                spec_radix(base),
                #[trigger] canonical@[i],
            )),
        _ => false,
    }
}

impl Token {
    /// The arbitrary-precision value of a BigInt numeric literal, parsed from
    /// its canonical digits; `None` for any other token.
    ///
    /// For every well-formed BigInt numeric token the result is `Some`: well
    /// formedness gives a nonempty canonical digit text whose bytes are all
    /// valid in the literal's base.
    pub fn bigint_value(&self) -> (r: Option<num_bigint::BigInt>)
        ensures
            r is Some <==> spec_bigint_parsable(self.kind),
            (r matches Some(v) ==> v == bigint_of(
                self.kind->NumericLiteral_canonical@,
                spec_radix(self.kind->NumericLiteral_base),
            )),
    {
        match &self.kind {
            TokenKind::NumericLiteral { canonical, base, is_bigint, .. } => {
                if !*is_bigint || canonical.len() == 0 {
                    return None;
                }
                let radix = radix_of_base(*base);
                if !all_radix_digits(canonical, radix) {
                    return None;
                }
                parse_bigint_digits(canonical, radix)
            },
            _ => None,
        }
    }
}

} // verus!
