//! Helpers over `0x`-prefixed code-point spellings, used when a downstream
//! consumer asks about a code point written in source text.

use vstd::prelude::*;
use vstd::string::StrSliceExecFns;
use crate::lexer_base::Lexer;
use crate::lexer_string::byte_digit_val;
use crate::number_literal::NumberLiteral;
use crate::number_literal::spec_is_hex_digit;

verus! {

/// The value of a hex-digit character string.
pub open spec fn hex_chars_value(s: Seq<char>) -> int
    decreases s.len(),
{
    if s.len() == 0 {
        0
    } else {
        hex_chars_value(s.drop_last()) * 16 + byte_digit_val(s.last() as u8)
    }
}

/// A string of the shape `0x` followed by hex digits whose value is a
/// Unicode scalar.
pub open spec fn spec_codepoint_form(s: Seq<char>) -> bool {
    &&& s.len() >= 3
    &&& s[0] == '0' && s[1] == 'x'
    &&& (forall|i: int| 2 <= i < s.len() ==> spec_is_hex_digit(#[trigger] s[i]))
    &&& hex_chars_value(s.subrange(2, s.len() as int)) <= 0x10FFFF
    &&& !(0xD800 <= hex_chars_value(s.subrange(2, s.len() as int)) <= 0xDFFF)
}

impl Lexer {
    /// Whether `s` spells a valid Unicode code point as `0x` plus hex
    /// digits.
    pub fn is_valid_unicode_codepoint(s: &str) -> (r: bool)
        ensures
            r == spec_codepoint_form(s@),
    {
        match Lexer::get_unicode_codepoint(s) {
            Ok(_) => true,
            Err(_) => false,
        }
    }

    /// The code point that `s` spells as `0x` plus hex digits, when it
    /// spells one.
    pub fn get_unicode_codepoint(s: &str) -> (r: Result<char, ()>)
        ensures
            r is Ok <==> spec_codepoint_form(s@),
            (r matches Ok(c) ==> c as u32 == hex_chars_value(s@.subrange(2, s@.len() as int))),
    {
        let n = s.unicode_len();
        if n < 3 {
            return Err(());
        }
        if s.get_char(0) != '0' || s.get_char(1) != 'x' {
            return Err(());
        }
        let mut i: usize = 2;
        let mut value: u32 = 0;
        let mut over = false;
        proof {
            assert(s@.subrange(2, 2) =~= Seq::<char>::empty());
        }
        while i < n
            invariant
                3 <= n,
                n as nat == s@.len(),
                2 <= i <= n,
                forall|j: int| 2 <= j < i ==> spec_is_hex_digit(#[trigger] s@[j]),
                !over ==> value == hex_chars_value(s@.subrange(2, i as int)) && value <= 0x10FFFF,
                over ==> hex_chars_value(s@.subrange(2, i as int)) > 0x10FFFF,
            decreases n - i,
        {
            let c = s.get_char(i);
            if !NumberLiteral::is_hex_digit(c) {
                return Err(());
            }
            let ghost pre = s@.subrange(2, i as int);
            let ghost nd = s@.subrange(2, i + 1);
            proof {
                assert(nd.drop_last() =~= pre);
                assert(nd.last() == s@[i as int]);
            }
            if over {
                proof {
                    assert(hex_chars_value(nd) > 0x10FFFF) by (nonlinear_arith)
                        requires
                            hex_chars_value(nd) == hex_chars_value(pre) * 16 + byte_digit_val(
                                nd.last() as u8,
                            ),
                            hex_chars_value(pre) > 0x10FFFF,
                            byte_digit_val(nd.last() as u8) >= 0,
                    ;
                }
            } else {
                let dv = crate::lexer_string::hex_digit_value(c);
                let next = value * 16 + dv;
                if next > 0x10FFFF {
                    over = true;
                    proof {
                        assert(hex_chars_value(nd) > 0x10FFFF);
                    }
                } else {
                    value = next;
                }
            }
            i = i + 1;
        }
        proof {
            assert(s@.subrange(2, n as int) =~= s@.subrange(2, s@.len() as int));
        }
        if over {
            return Err(());
        }
        match char::from_u32(value) {
            Some(c) => Ok(c),
            None => Err(()),
        }
    }
}

} // verus!
