//! The numeric-literal sub-lexer: decimal, hex, octal (prefixed and
//! legacy), binary, exponent and BigInt forms.

use vstd::prelude::*;
use vstd::string::StringExecFns;
use crate::lexer_base::Lexer;
use crate::lexer_base::scan_ok;
use crate::lexer_base::same_but_counters;
use crate::lexer_errors::LexerError;
use crate::lexer_errors::LexerErrorKind;
use crate::lexer_errors::Span;
use crate::number_literal::NumberLiteral;
use crate::number_literal::spec_is_binary_digit;
use crate::number_literal::spec_is_binary_start;
use crate::number_literal::spec_is_decimal_digit;
use crate::number_literal::spec_is_exponent_indicator;
use crate::number_literal::spec_is_exponent_sign;
use crate::number_literal::spec_is_hex_digit;
use crate::number_literal::spec_is_hex_start;
use crate::number_literal::spec_is_octal_digit;
use crate::number_literal::spec_is_octal_start;
use crate::tokens::NumericBase;
use crate::tokens::is_base_digit_byte;
use crate::tokens::is_decimal_canonical_byte;
use crate::tokens::is_decimal_digit_byte;
use crate::tokens::numeric_kind_wf;
use crate::tokens::canonical_pred;
use crate::tokens::spec_canonical_byte;
use crate::tokens::token_wf;
use crate::tokens::Token;
use crate::tokens::TokenKind;
use crate::tokens::spec_is_number_start;
use crate::utf8_cursor::Utf8Cursor;
use crate::utf8_cursor::decode_ok;
use crate::utf8_cursor::decoded_char;
use crate::utf8_cursor::decoded_len;
use crate::utf8_cursor::spec_peek_ahead;

verus! {

/// The state a digit-reading helper hands back: the lexeme bytes and the
/// canonical digit bytes accumulated so far, and the flags found on the way.
pub struct NumberResult {
    pub buffer: Vec<u8>,
    pub no_raw_value: Vec<u8>,
    pub is_bigint: bool,
    pub has_exponent: bool,
}

/// The canonical text grew only by digit bytes of the base (for a decimal
/// literal: digits, point and exponent punctuation).
pub open spec fn canonical_extended(
    old_canon: Seq<u8>,
    new_canon: Seq<u8>,
    base: NumericBase,
) -> bool {
    &&& new_canon.len() >= old_canon.len()
    &&& new_canon.subrange(0, old_canon.len() as int) == old_canon
    &&& (match base {
        NumericBase::Decimal => forall|i: int|
            old_canon.len() <= i < new_canon.len() ==> is_decimal_canonical_byte(
                #[trigger] new_canon[i],
            ),
        _ => forall|i: int|
            old_canon.len() <= i < new_canon.len() ==> is_base_digit_byte(
                base,
                #[trigger] new_canon[i],
            ),
    })
}

/// Filtering a sequence extended by one byte keeps the byte exactly when
/// the predicate admits it.
proof fn lemma_filter_one(s: Seq<u8>, b: u8, pred: spec_fn(u8) -> bool)
    ensures
        (s + seq![b]).filter(pred) == s.filter(pred) + (if pred(b) {
            seq![b]
        } else {
            Seq::<u8>::empty()
        }),
{
    reveal(Seq::filter);
    Seq::filter_distributes_over_add(s, seq![b], pred);
    assert(seq![b].drop_last() =~= Seq::<u8>::empty());
    assert(Seq::<u8>::empty().filter(pred) =~= Seq::<u8>::empty());
    if pred(b) {
        assert(seq![b].filter(pred) =~= seq![b]);
        assert(s.filter(pred) + seq![b].filter(pred) =~= s.filter(pred) + seq![b]);
    } else {
        assert(seq![b].filter(pred) =~= Seq::<u8>::empty());
        assert(s.filter(pred) + seq![b].filter(pred) =~= s.filter(pred));
        assert(s.filter(pred) + Seq::<u8>::empty() =~= s.filter(pred));
    }
}

/// The canonical text built as `prefix + filter(consumed)` keeps the prefix
/// and appends only bytes that the base admits.
proof fn lemma_canonical_filter_shape(
    canon0: Seq<u8>,
    new_canon: Seq<u8>,
    consumed: Seq<u8>,
    base: NumericBase,
)
    requires
        new_canon == canon0 + consumed.filter(canonical_pred(base)),
    ensures
        new_canon.len() >= canon0.len(),
        new_canon.subrange(0, canon0.len() as int) == canon0,
        forall|i: int|
            canon0.len() <= i < new_canon.len() ==> spec_canonical_byte(
                base,
                #[trigger] new_canon[i],
            ),
{
    broadcast use vstd::seq_lib::group_filter_ensures;

    let f = consumed.filter(canonical_pred(base));
    assert(new_canon.subrange(0, canon0.len() as int) =~= canon0);
    assert forall|i: int| canon0.len() <= i < new_canon.len() implies spec_canonical_byte(
        base,
        #[trigger] new_canon[i],
    ) by {
        assert(new_canon[i] == f[i - canon0.len()]);
        assert(canonical_pred(base)(f[i - canon0.len()]));
    }
}

/// Whether `c` is a digit of the base.
pub open spec fn spec_base_digit(base: NumericBase, c: char) -> bool {
    match base {
        NumericBase::Decimal => spec_is_decimal_digit(c),
        NumericBase::Hex => spec_is_hex_digit(c),
        NumericBase::Binary => spec_is_binary_digit(c),
        NumericBase::Octal => spec_is_octal_digit(c),
    }
}

/// Whether the digit body of a binary, octal or hex literal scans cleanly
/// from `pos`: digits of the base with separators flanked by digits and an
/// optional BigInt suffix, ending at the first code point that cannot extend
/// the literal; a decimal digit outside the base's set is a lexical error.
/// `prev` carries whether the previous code point was a digit, `seen`
/// whether any digit has been read yet.
pub open spec fn radix_scan_ok(
    input: Seq<u8>,
    pos: int,
    base: NumericBase,
    prev: bool,
    seen: bool,
) -> bool
    decreases input.len() - pos,
    when 0 <= pos <= input.len()
{
    if !decode_ok(input, pos) {
        seen
    } else {
        let c = decoded_char(input, pos);
        let w = decoded_len(input, pos);
        if spec_base_digit(base, c) {
            radix_scan_ok(input, pos + w, base, true, true)
        } else if c == '_' {
            &&& prev
            &&& (spec_peek_ahead(input, pos, 1) matches Some(d) && spec_base_digit(base, d))
            &&& radix_scan_ok(input, pos + w, base, false, seen)
        } else if c == 'n' {
            seen
        } else if spec_is_decimal_digit(c) {
            false
        } else {
            seen
        }
    }
}

/// Whether the body of a decimal literal scans cleanly from `pos`: digits,
/// at most one fraction point, at most one exponent with an optional sign
/// and at least one digit, separators flanked by digits, and a BigInt suffix
/// only on a plain integer form.  `prev` carries whether the previous code
/// point was a digit, `seen` whether any canonical byte has been taken yet;
/// `punct`, `inexp` and `expd` carry whether a fraction point was read,
/// whether the scan is inside an exponent, and whether the exponent has a
/// digit yet.
pub open spec fn decimal_scan_ok(
    input: Seq<u8>,
    pos: int,
    prev: bool,
    seen: bool,
    punct: bool,
    inexp: bool,
    expd: bool,
) -> bool
    decreases input.len() - pos,
    when 0 <= pos <= input.len()
{
    if !decode_ok(input, pos) {
        seen && !(inexp && !expd)
    } else {
        let c = decoded_char(input, pos);
        let w = decoded_len(input, pos);
        if spec_is_decimal_digit(c) {
            decimal_scan_ok(
                input,
                pos + w,
                true,
                true,
                punct,
                inexp,
                if inexp {
                    true
                } else {
                    expd
                },
            )
        } else if c == '.' {
            &&& !punct
            &&& !inexp
            &&& decimal_scan_ok(input, pos + w, false, true, true, inexp, expd)
        } else if spec_is_exponent_indicator(c) {
            if inexp {
                seen && expd
            } else {
                if decode_ok(input, pos + w) && spec_is_exponent_sign(
                    decoded_char(input, pos + w),
                ) {
                    decimal_scan_ok(
                        input,
                        pos + w + decoded_len(input, pos + w),
                        false,
                        true,
                        punct,
                        true,
                        false,
                    )
                } else {
                    decimal_scan_ok(input, pos + w, false, true, punct, true, false)
                }
            }
        } else if c == '_' {
            &&& prev
            &&& (spec_peek_ahead(input, pos, 1) matches Some(d) && spec_is_decimal_digit(d))
            &&& decimal_scan_ok(input, pos + w, false, seen, punct, inexp, expd)
        } else if c == 'n' {
            !punct && !inexp && seen
        } else {
            seen && !(inexp && !expd)
        }
    }
}

/// Whether a whole numeric literal scans cleanly at `pos` (which holds a
/// decimal digit, or `.` before one): the base is chosen by the prefix after
/// a leading zero, a legacy octal form is refused in strict mode, and the
/// body scans cleanly for the base.
pub open spec fn spec_numeric_scan_ok(input: Seq<u8>, pos: int, strict: bool) -> bool
    recommends
        decode_ok(input, pos),
{
    let c = decoded_char(input, pos);
    let w = decoded_len(input, pos);
    let next = spec_peek_ahead(input, pos, 1);
    if c == '0' && next is Some {
        let d = next->Some_0;
        if spec_is_hex_start(d) {
            radix_scan_ok(
                input,
                pos + w + decoded_len(input, pos + w),
                NumericBase::Hex,
                false,
                false,
            )
        } else if spec_is_binary_start(d) {
            radix_scan_ok(
                input,
                pos + w + decoded_len(input, pos + w),
                NumericBase::Binary,
                false,
                false,
            )
        } else if spec_is_octal_start(d) {
            radix_scan_ok(
                input,
                pos + w + decoded_len(input, pos + w),
                NumericBase::Octal,
                false,
                false,
            )
        } else if spec_is_octal_digit(d) {
            !strict && radix_scan_ok(input, pos + w, NumericBase::Octal, false, false)
        } else {
            decimal_scan_ok(input, pos, false, false, false, false, false)
        }
    } else if c == '.' {
        decimal_scan_ok(input, pos + w, false, false, true, false, false)
    } else {
        decimal_scan_ok(input, pos, false, false, false, false, false)
    }
}

/// The base and legacy-octal flag selected by the prefix at `pos` (which
/// holds a decimal digit, or `.` before one).
pub open spec fn spec_numeric_base_at(input: Seq<u8>, pos: int) -> (NumericBase, bool)
    recommends
        decode_ok(input, pos),
{
    let c = decoded_char(input, pos);
    let next = spec_peek_ahead(input, pos, 1);
    if c == '0' && next is Some {
        let d = next->Some_0;
        if spec_is_hex_start(d) {
            (NumericBase::Hex, false)
        } else if spec_is_binary_start(d) {
            (NumericBase::Binary, false)
        } else if spec_is_octal_start(d) {
            (NumericBase::Octal, false)
        } else if spec_is_octal_digit(d) {
            (NumericBase::Octal, true)
        } else {
            (NumericBase::Decimal, false)
        }
    } else {
        (NumericBase::Decimal, false)
    }
}

/// What a digit-reading helper guarantees on success.
pub open spec fn number_result_ok(
    nr: NumberResult,
    buffer0: Seq<u8>,
    canon0: Seq<u8>,
    input: Seq<u8>,
    pos0: int,
    pos1: int,
    base: NumericBase,
) -> bool {
    let consumed = input.subrange(pos0, pos1);
    &&& pos0 < pos1
    &&& nr.buffer@ == buffer0 + consumed
    &&& canonical_extended(canon0, nr.no_raw_value@, base)
    &&& nr.no_raw_value@ == canon0 + consumed.filter(canonical_pred(base))
    &&& nr.no_raw_value@.len() > canon0.len()
    &&& (nr.is_bigint <==> (consumed.len() > 0 && consumed.last() == 110))
    &&& (nr.is_bigint ==> !nr.has_exponent)
    &&& (nr.is_bigint ==> forall|i: int|
        canon0.len() <= i < nr.no_raw_value@.len() ==> is_base_digit_byte(
            base,
            #[trigger] nr.no_raw_value@[i],
        ))
    &&& (base != NumericBase::Decimal ==> !nr.has_exponent)
    &&& (forall|k: int|
        pos0 <= k < pos1 ==> crate::tokens::spec_body_byte(base, #[trigger] input[k]) || (k
            == pos1 - 1 && input[k] == 110))
    &&& (base == NumericBase::Decimal ==> (nr.has_exponent <==> exists|k: int|
        pos0 <= k < pos1 && ((#[trigger] input[k]) == 101 || input[k] == 69)))
    &&& (nr.is_bigint || !(decode_ok(input, pos1) && spec_base_digit(
        base,
        decoded_char(input, pos1),
    )))
}

/// Algebra of the dot-led decimal path: the canonical text accumulated as
/// `0.` plus the filtered suffix equals the canonical text determined by the
/// whole lexeme.
proof fn proof_decimal_dot_filter(
    lexeme: Seq<u8>,
    consumed: Seq<u8>,
    canonical: Seq<u8>,
    canon_pre: Seq<u8>,
)
    requires
        lexeme.len() > 0,
        lexeme[0] == 46,
        lexeme == seq![46u8] + consumed,
        canon_pre == seq![48u8, 46u8],
        canonical == canon_pre + consumed.filter(canonical_pred(NumericBase::Decimal)),
        seq![46u8].filter(canonical_pred(NumericBase::Decimal)) == seq![46u8],
    ensures
        canonical == crate::tokens::spec_canonical_of(lexeme, NumericBase::Decimal, false),
{
    Seq::filter_distributes_over_add(
        seq![46u8],
        consumed,
        canonical_pred(NumericBase::Decimal),
    );
    assert(lexeme.filter(canonical_pred(NumericBase::Decimal)) == seq![46u8] + consumed.filter(
        canonical_pred(NumericBase::Decimal),
    ));
    assert(seq![48u8] + (seq![46u8] + consumed.filter(canonical_pred(NumericBase::Decimal)))
        =~= canon_pre + consumed.filter(canonical_pred(NumericBase::Decimal)));
}

impl Lexer {
    /// Reads the digits (with separators and an optional BigInt suffix) of a
    /// binary, octal or hex literal, after its prefix.
    #[verifier::rlimit(100)]
    #[verifier::spinoff_prover]
    fn read_radix_digits(
        &mut self,
        reader: &mut Utf8Cursor,
        buffer_i: Vec<u8>,
        no_raw_value_i: Vec<u8>,
        string_byte_start: usize,
        base: NumericBase,
    ) -> (r: Result<NumberResult, LexerError>)
        requires
            scan_ok(*old(self), *old(reader)),
            string_byte_start <= old(reader).pos,
            base != NumericBase::Decimal,
        ensures
            scan_ok(*final(self), *final(reader)),
            same_but_counters(*old(self), *final(self)),
            final(reader).input == old(reader).input,
            old(reader).pos <= final(reader).pos,
            (r matches Ok(nr) ==> number_result_ok(
                nr,
                buffer_i@,
                no_raw_value_i@,
                old(reader).input@,
                old(reader).pos as int,
                final(reader).pos as int,
                base,
            )),
            (r matches Err(e) ==> e.span.start <= final(reader).pos <= e.span.end
                && e.span.end <= final(reader).input@.len()),
            (r is Ok <==> radix_scan_ok(
                old(reader).input@,
                old(reader).pos as int,
                base,
                false,
                false,
            )),
            (r matches Err(e) ==> (e.kind matches LexerErrorKind::InvalidDigit { .. }
                || e.kind matches LexerErrorKind::UnexpectedEOF)),
            (r matches Err(e) ==> (e.kind matches LexerErrorKind::InvalidDigit { base: eb, found }
                ==> decode_ok(old(reader).input@, final(reader).pos as int) && found
                == decoded_char(old(reader).input@, final(reader).pos as int))),
    {
        let ghost pos0 = reader.pos as int;
        let ghost input = reader.input@;
        let digits0 = no_raw_value_i.len();
        let mut buffer = buffer_i;
        let mut no_raw_value = no_raw_value_i;
        let ghost buffer0 = buffer@;
        let ghost canon0 = no_raw_value@;
        let mut is_bigint = false;
        let mut prev_digit = false;
        proof {
            reveal(Seq::filter);
            assert(input.subrange(pos0, pos0).filter(canonical_pred(base))
                =~= Seq::<u8>::empty());
            assert(no_raw_value@ =~= canon0 + input.subrange(pos0, pos0).filter(
                canonical_pred(base),
            ));
        }

        loop
            invariant_except_break
                is_bigint == false,
                radix_scan_ok(input, pos0, base, false, false) == radix_scan_ok(
                    input,
                    reader.pos as int,
                    base,
                    prev_digit,
                    no_raw_value@.len() > canon0.len(),
                ),
                forall|k: int|
                    pos0 <= k < reader.pos ==> crate::tokens::spec_body_byte(
                        base,
                        #[trigger] input[k],
                    ),
            invariant
                scan_ok(*self, *reader),
                same_but_counters(*old(self), *self),
                reader.input == old(reader).input,
                input == reader.input@,
                pos0 == old(reader).pos,
                pos0 <= reader.pos,
                string_byte_start <= reader.pos,
                base != NumericBase::Decimal,
                digits0 == canon0.len(),
                no_raw_value@ == canon0 + input.subrange(pos0, reader.pos as int).filter(
                    canonical_pred(base),
                ),
                buffer@ == buffer0 + input.subrange(pos0, reader.pos as int),
                is_bigint <==> (reader.pos > pos0 && input.subrange(
                    pos0,
                    reader.pos as int,
                ).last() == 110),
            ensures
                scan_ok(*self, *reader),
                same_but_counters(*old(self), *self),
                reader.input == old(reader).input,
                input == reader.input@,
                pos0 == old(reader).pos,
                pos0 <= reader.pos,
                digits0 == canon0.len(),
                no_raw_value@ == canon0 + input.subrange(pos0, reader.pos as int).filter(
                    canonical_pred(base),
                ),
                buffer@ == buffer0 + input.subrange(pos0, reader.pos as int),
                is_bigint <==> (reader.pos > pos0 && input.subrange(
                    pos0,
                    reader.pos as int,
                ).last() == 110),
                radix_scan_ok(input, pos0, base, false, false) == (no_raw_value@.len()
                    > canon0.len()),
                forall|k: int|
                    pos0 <= k < reader.pos ==> crate::tokens::spec_body_byte(
                        base,
                        #[trigger] input[k],
                    ) || (k == reader.pos - 1 && input[k] == 110),
                is_bigint || !(decode_ok(input, reader.pos as int) && spec_base_digit(
                    base,
                    decoded_char(input, reader.pos as int),
                )),
            decreases input.len() - reader.pos,
        {
            let c = match reader.peek() {
                Some(c) => c,
                None => {
                    proof {
                        assert(!decode_ok(input, reader.pos as int));
                        assert(radix_scan_ok(
                            input,
                            reader.pos as int,
                            base,
                            prev_digit,
                            no_raw_value@.len() > canon0.len(),
                        ) == (no_raw_value@.len() > canon0.len()));
                    }
                    break ;
                },
            };
            let ghost prev0 = prev_digit;
            let ghost seen0 = no_raw_value@.len() > canon0.len();
            let digit_ok = match base {
                NumericBase::Binary => NumberLiteral::is_binary_digit(c),
                NumericBase::Octal => NumberLiteral::is_octal_digit(c),
                NumericBase::Hex => NumberLiteral::is_hex_digit(c),
                NumericBase::Decimal => false,
            };
            if digit_ok {
                let ghost p = reader.pos as int;
                let taken = self.take_byte(reader, &mut buffer);
                no_raw_value.push(#[verifier::truncate] (taken as u8));
                proof {
                    assert(input.subrange(pos0, reader.pos as int) =~= input.subrange(pos0, p)
                        + seq![input[p]]);
                    assert(buffer@ =~= buffer0 + input.subrange(pos0, reader.pos as int));
                    assert(input.subrange(pos0, reader.pos as int).last() == taken as u8);
                    assert(spec_canonical_byte(base, input[p]));
                    lemma_filter_one(input.subrange(pos0, p), input[p], canonical_pred(base));
                    assert(no_raw_value@ =~= canon0 + input.subrange(
                        pos0,
                        reader.pos as int,
                    ).filter(canonical_pred(base)));
                    crate::utf8_cursor::lemma_ascii_decode(input, p);
                    assert(spec_base_digit(base, c));
                    assert(radix_scan_ok(input, p, base, prev0, seen0) == radix_scan_ok(
                        input,
                        reader.pos as int,
                        base,
                        true,
                        true,
                    ));
                }
                prev_digit = true;
            } else if NumberLiteral::is_numeric_literal_separator(c) {
                if !prev_digit {
                    proof {
                        assert(!radix_scan_ok(input, reader.pos as int, base, prev0, seen0));
                    }
                    return Err(
                        LexerError {
                            kind: LexerErrorKind::InvalidDigit { base, found: c },
                            span: Span { start: string_byte_start, end: reader.pos() },
                        },
                    );
                }
                let next_ok = match reader.peek_n(1) {
                    Some(d) => match base {
                        NumericBase::Binary => NumberLiteral::is_binary_digit(d),
                        NumericBase::Octal => NumberLiteral::is_octal_digit(d),
                        NumericBase::Hex => NumberLiteral::is_hex_digit(d),
                        NumericBase::Decimal => false,
                    },
                    None => false,
                };
                if !next_ok {
                    proof {
                        assert(!radix_scan_ok(input, reader.pos as int, base, prev0, seen0));
                    }
                    return Err(
                        LexerError {
                            kind: LexerErrorKind::InvalidDigit { base, found: c },
                            span: Span { start: string_byte_start, end: reader.pos() },
                        },
                    );
                }
                let ghost p = reader.pos as int;
                let taken = self.take_byte(reader, &mut buffer);
                proof {
                    assert(input.subrange(pos0, reader.pos as int) =~= input.subrange(pos0, p)
                        + seq![input[p]]);
                    assert(buffer@ =~= buffer0 + input.subrange(pos0, reader.pos as int));
                    assert(input[p] == 95);
                    assert(input.subrange(pos0, reader.pos as int).len() == reader.pos - pos0);
                    assert(input.subrange(pos0, reader.pos as int)[reader.pos - pos0 - 1]
                        == input[p]);
                    assert(input.subrange(pos0, reader.pos as int).last() == 95);
                    assert(!spec_canonical_byte(base, 95));
                    lemma_filter_one(input.subrange(pos0, p), input[p], canonical_pred(base));
                    assert(no_raw_value@ =~= canon0 + input.subrange(
                        pos0,
                        reader.pos as int,
                    ).filter(canonical_pred(base)));
                    crate::utf8_cursor::lemma_ascii_decode(input, p);
                    assert(radix_scan_ok(input, p, base, prev0, seen0) == radix_scan_ok(
                        input,
                        reader.pos as int,
                        base,
                        false,
                        seen0,
                    ));
                }
                prev_digit = false;
            } else if NumberLiteral::is_bigint_suffix(c) {
                let ghost p = reader.pos as int;
                let _taken = self.take_byte(reader, &mut buffer);
                proof {
                    assert(input.subrange(pos0, reader.pos as int) =~= input.subrange(pos0, p)
                        + seq![input[p]]);
                    assert(buffer@ =~= buffer0 + input.subrange(pos0, reader.pos as int));
                    assert(input.subrange(pos0, reader.pos as int).last() == 110);
                    assert(!spec_canonical_byte(base, 110));
                    lemma_filter_one(input.subrange(pos0, p), input[p], canonical_pred(base));
                    assert(no_raw_value@ =~= canon0 + input.subrange(
                        pos0,
                        reader.pos as int,
                    ).filter(canonical_pred(base)));
                    assert(radix_scan_ok(input, p, base, prev0, seen0) == seen0);
                }
                is_bigint = true;
                break ;
            } else if NumberLiteral::is_decimal_digit(c) {
                // a decimal digit that is not a digit of this base
                proof {
                    assert(!radix_scan_ok(input, reader.pos as int, base, prev0, seen0));
                }
                return Err(
                    LexerError {
                        kind: LexerErrorKind::InvalidDigit { base, found: c },
                        span: Span { start: string_byte_start, end: reader.pos() },
                    },
                );
            } else {
                proof {
                    assert(!spec_base_digit(base, decoded_char(input, reader.pos as int)));
                    assert(radix_scan_ok(input, reader.pos as int, base, prev0, seen0) == seen0);
                }
                break ;
            }
        }
        if no_raw_value.len() == digits0 {
            // no digit was consumed: the literal has a prefix and no body
            let err_kind = match reader.peek() {
                Some(c) => LexerErrorKind::InvalidDigit { base, found: c },
                None => LexerErrorKind::UnexpectedEOF,
            };
            return Err(
                LexerError { kind: err_kind, span: Span { start: string_byte_start, end: reader.pos() } },
            );
        }
        proof {
            lemma_canonical_filter_shape(
                canon0,
                no_raw_value@,
                input.subrange(pos0, reader.pos as int),
                base,
            );
            if reader.pos == pos0 {
                reveal(Seq::filter);
                assert(input.subrange(pos0, pos0).filter(canonical_pred(base))
                    =~= Seq::<u8>::empty());
                assert(no_raw_value@ =~= canon0);
                assert(false);
            }
        }
        Ok(NumberResult { buffer, no_raw_value, is_bigint, has_exponent: false })
    }

    /// Reads the digits of a binary literal after its `0b` prefix.
    pub fn read_binary_literal(
        &mut self,
        reader: &mut Utf8Cursor,
        buffer_i: Vec<u8>,
        no_raw_value_i: Vec<u8>,
        string_byte_start: usize,
    ) -> (r: Result<NumberResult, LexerError>)
        requires
            scan_ok(*old(self), *old(reader)),
            string_byte_start <= old(reader).pos,
        ensures
            scan_ok(*final(self), *final(reader)),
            same_but_counters(*old(self), *final(self)),
            final(reader).input == old(reader).input,
            old(reader).pos <= final(reader).pos,
            (r matches Ok(nr) ==> number_result_ok(
                nr,
                buffer_i@,
                no_raw_value_i@,
                old(reader).input@,
                old(reader).pos as int,
                final(reader).pos as int,
                NumericBase::Binary,
            )),
            (r matches Err(e) ==> e.span.start <= final(reader).pos <= e.span.end
                && e.span.end <= final(reader).input@.len()),
            (r is Ok <==> radix_scan_ok(
                old(reader).input@,
                old(reader).pos as int,
                NumericBase::Binary,
                false,
                false,
            )),
            (r matches Err(e) ==> (e.kind matches LexerErrorKind::InvalidDigit { .. }
                || e.kind matches LexerErrorKind::UnexpectedEOF)),
            (r matches Err(e) ==> (e.kind matches LexerErrorKind::InvalidDigit { base: eb, found }
                ==> decode_ok(old(reader).input@, final(reader).pos as int) && found
                == decoded_char(old(reader).input@, final(reader).pos as int))),
    {
        self.read_radix_digits(reader, buffer_i, no_raw_value_i, string_byte_start, NumericBase::Binary)
    }

    /// Reads the digits of an octal literal after its `0o` prefix or its
    /// legacy `0`.
    pub fn read_octal_literal(
        &mut self,
        reader: &mut Utf8Cursor,
        buffer_i: Vec<u8>,
        no_raw_value_i: Vec<u8>,
        string_byte_start: usize,
    ) -> (r: Result<NumberResult, LexerError>)
        requires
            scan_ok(*old(self), *old(reader)),
            string_byte_start <= old(reader).pos,
        ensures
            scan_ok(*final(self), *final(reader)),
            same_but_counters(*old(self), *final(self)),
            final(reader).input == old(reader).input,
            old(reader).pos <= final(reader).pos,
            (r matches Ok(nr) ==> number_result_ok(
                nr,
                buffer_i@,
                no_raw_value_i@,
                old(reader).input@,
                old(reader).pos as int,
                final(reader).pos as int,
                NumericBase::Octal,
            )),
            (r matches Err(e) ==> e.span.start <= final(reader).pos <= e.span.end
                && e.span.end <= final(reader).input@.len()),
            (r is Ok <==> radix_scan_ok(
                old(reader).input@,
                old(reader).pos as int,
                NumericBase::Octal,
                false,
                false,
            )),
            (r matches Err(e) ==> (e.kind matches LexerErrorKind::InvalidDigit { .. }
                || e.kind matches LexerErrorKind::UnexpectedEOF)),
            (r matches Err(e) ==> (e.kind matches LexerErrorKind::InvalidDigit { base: eb, found }
                ==> decode_ok(old(reader).input@, final(reader).pos as int) && found
                == decoded_char(old(reader).input@, final(reader).pos as int))),
    {
        self.read_radix_digits(reader, buffer_i, no_raw_value_i, string_byte_start, NumericBase::Octal)
    }

    /// Reads the digits of a hex literal after its `0x` prefix.
    pub fn read_hex_literal(
        &mut self,
        reader: &mut Utf8Cursor,
        buffer_i: Vec<u8>,
        no_raw_value_i: Vec<u8>,
        string_byte_start: usize,
    ) -> (r: Result<NumberResult, LexerError>)
        requires
            scan_ok(*old(self), *old(reader)),
            string_byte_start <= old(reader).pos,
        ensures
            scan_ok(*final(self), *final(reader)),
            same_but_counters(*old(self), *final(self)),
            final(reader).input == old(reader).input,
            old(reader).pos <= final(reader).pos,
            (r matches Ok(nr) ==> number_result_ok(
                nr,
                buffer_i@,
                no_raw_value_i@,
                old(reader).input@,
                old(reader).pos as int,
                final(reader).pos as int,
                NumericBase::Hex,
            )),
            (r matches Err(e) ==> e.span.start <= final(reader).pos <= e.span.end
                && e.span.end <= final(reader).input@.len()),
            (r is Ok <==> radix_scan_ok(
                old(reader).input@,
                old(reader).pos as int,
                NumericBase::Hex,
                false,
                false,
            )),
            (r matches Err(e) ==> (e.kind matches LexerErrorKind::InvalidDigit { .. }
                || e.kind matches LexerErrorKind::UnexpectedEOF)),
            (r matches Err(e) ==> (e.kind matches LexerErrorKind::InvalidDigit { base: eb, found }
                ==> decode_ok(old(reader).input@, final(reader).pos as int) && found
                == decoded_char(old(reader).input@, final(reader).pos as int))),
    {
        self.read_radix_digits(reader, buffer_i, no_raw_value_i, string_byte_start, NumericBase::Hex)
    }

    /// Consumes one ASCII character of a numeric literal: its byte extends
    /// the lexeme buffer, and extends the canonical text exactly when the
    /// base admits it.
    fn step_number_byte(
        &mut self,
        reader: &mut Utf8Cursor,
        buffer: &mut Vec<u8>,
        canonical: &mut Vec<u8>,
        push_canonical: bool,
        base: NumericBase,
        pos0: Ghost<int>,
        buffer0: Ghost<Seq<u8>>,
        canon0: Ghost<Seq<u8>>,
    ) -> (c: char)
        requires
            scan_ok(*old(self), *old(reader)),
            decode_ok(old(reader).input@, old(reader).pos as int),
            (decoded_char(old(reader).input@, old(reader).pos as int) as u32) < 0x80,
            0 <= pos0@ <= old(reader).pos,
            old(buffer)@ == buffer0@ + old(reader).input@.subrange(
                pos0@,
                old(reader).pos as int,
            ),
            old(canonical)@ == canon0@ + old(reader).input@.subrange(
                pos0@,
                old(reader).pos as int,
            ).filter(canonical_pred(base)),
            push_canonical == spec_canonical_byte(
                base,
                old(reader).input@[old(reader).pos as int],
            ),
        ensures
            scan_ok(*final(self), *final(reader)),
            same_but_counters(*old(self), *final(self)),
            final(reader).input == old(reader).input,
            c == decoded_char(old(reader).input@, old(reader).pos as int),
            (c as u32) < 0x80,
            old(reader).input@[old(reader).pos as int] == c as u8,
            final(reader).pos == old(reader).pos + 1,
            final(buffer)@ == old(buffer)@.push(c as u8),
            final(buffer)@ == buffer0@ + final(reader).input@.subrange(
                pos0@,
                final(reader).pos as int,
            ),
            push_canonical ==> final(canonical)@ == old(canonical)@.push(c as u8),
            !push_canonical ==> *final(canonical) == *old(canonical),
            final(canonical)@ == canon0@ + final(reader).input@.subrange(
                pos0@,
                final(reader).pos as int,
            ).filter(canonical_pred(base)),
            final(reader).input@.subrange(pos0@, final(reader).pos as int).last() == c as u8,
    {
        let ghost input = reader.input@;
        let ghost p = reader.pos as int;
        let taken = self.take_byte(reader, buffer);
        if push_canonical {
            canonical.push(#[verifier::truncate] (taken as u8));
        }
        proof {
            assert(input.subrange(pos0@, reader.pos as int) =~= input.subrange(pos0@, p)
                + seq![input[p]]);
            assert(buffer@ =~= buffer0@ + input.subrange(pos0@, reader.pos as int));
            lemma_filter_one(input.subrange(pos0@, p), input[p], canonical_pred(base));
            assert(canonical@ =~= canon0@ + input.subrange(pos0@, reader.pos as int).filter(
                canonical_pred(base),
            ));
            assert(input.subrange(pos0@, reader.pos as int).last() == taken as u8);
        }
        taken
    }

    /// Reads the body of a decimal literal: digits, separators, at most one
    /// fraction point, at most one exponent with an optional sign, or a
    /// BigInt suffix on a plain integer form.  `deny_decimal_separator` is
    /// set when a fraction point was already consumed by the caller.
    #[verifier::rlimit(100)]
    #[verifier::spinoff_prover]
    pub fn read_decimal_literal(
        &mut self,
        reader: &mut Utf8Cursor,
        buffer_i: Vec<u8>,
        no_raw_value_i: Vec<u8>,
        string_byte_start: usize,
        deny_decimal_separator: bool,
    ) -> (r: Result<NumberResult, LexerError>)
        requires
            scan_ok(*old(self), *old(reader)),
            string_byte_start <= old(reader).pos,
        ensures
            scan_ok(*final(self), *final(reader)),
            same_but_counters(*old(self), *final(self)),
            final(reader).input == old(reader).input,
            old(reader).pos <= final(reader).pos,
            (r matches Ok(nr) ==> number_result_ok(
                nr,
                buffer_i@,
                no_raw_value_i@,
                old(reader).input@,
                old(reader).pos as int,
                final(reader).pos as int,
                NumericBase::Decimal,
            )),
            (r matches Ok(nr) ==> (deny_decimal_separator ==> !nr.is_bigint)),
            (r matches Err(e) ==> e.span.start <= final(reader).pos <= e.span.end
                && e.span.end <= final(reader).input@.len()),
            (r is Ok <==> decimal_scan_ok(
                old(reader).input@,
                old(reader).pos as int,
                false,
                false,
                deny_decimal_separator,
                false,
                false,
            )),
            (r matches Err(e) ==> (e.kind matches LexerErrorKind::InvalidDigit { .. }
                || e.kind matches LexerErrorKind::UnexpectedNumber
                || e.kind matches LexerErrorKind::InvalidBigInt { .. }
                || e.kind matches LexerErrorKind::UnexpectedEOF)),
            (r matches Err(e) ==> (e.kind matches LexerErrorKind::InvalidDigit { base: eb, found }
                ==> decode_ok(old(reader).input@, final(reader).pos as int) && found
                == decoded_char(old(reader).input@, final(reader).pos as int))),
    {
        let ghost pos0 = reader.pos as int;
        let ghost input = reader.input@;
        let digits0 = no_raw_value_i.len();
        let mut buffer = buffer_i;
        let mut no_raw_value = no_raw_value_i;
        let ghost buffer0 = buffer@;
        let ghost canon0 = no_raw_value@;
        let mut is_bigint = false;
        let mut prev_digit = false;
        let mut has_punct = deny_decimal_separator;
        let mut in_exp = false;
        let mut exp_digits = false;
        proof {
            reveal(Seq::filter);
            assert(input.subrange(pos0, pos0).filter(canonical_pred(NumericBase::Decimal))
                =~= Seq::<u8>::empty());
            assert(no_raw_value@ =~= canon0 + input.subrange(pos0, pos0).filter(
                canonical_pred(NumericBase::Decimal),
            ));
        }

        loop
            invariant_except_break
                is_bigint == false,
                decimal_scan_ok(
                    input,
                    pos0,
                    false,
                    false,
                    deny_decimal_separator,
                    false,
                    false,
                ) == decimal_scan_ok(
                    input,
                    reader.pos as int,
                    prev_digit,
                    no_raw_value@.len() > canon0.len(),
                    has_punct,
                    in_exp,
                    exp_digits,
                ),
                forall|k: int|
                    pos0 <= k < reader.pos ==> crate::tokens::spec_body_byte(
                        NumericBase::Decimal,
                        #[trigger] input[k],
                    ),
            invariant
                scan_ok(*self, *reader),
                same_but_counters(*old(self), *self),
                reader.input == old(reader).input,
                input == reader.input@,
                pos0 == old(reader).pos,
                pos0 <= reader.pos,
                string_byte_start <= reader.pos,
                !in_exp ==> !exp_digits,
                !in_exp ==> forall|k: int|
                    pos0 <= k < reader.pos ==> (#[trigger] input[k]) != 101 && input[k] != 69,
                in_exp ==> (exists|k: int|
                    pos0 <= k < reader.pos && ((#[trigger] input[k]) == 101 || input[k] == 69)),
                digits0 == canon0.len(),
                no_raw_value@ == canon0 + input.subrange(pos0, reader.pos as int).filter(
                    canonical_pred(NumericBase::Decimal),
                ),
                buffer@ == buffer0 + input.subrange(pos0, reader.pos as int),
                (!has_punct && !in_exp) ==> forall|i: int|
                    canon0.len() <= i < no_raw_value@.len() ==> is_decimal_digit_byte(
                        #[trigger] no_raw_value@[i],
                    ),
                deny_decimal_separator ==> has_punct,
                is_bigint <==> (reader.pos > pos0 && input.subrange(
                    pos0,
                    reader.pos as int,
                ).last() == 110),
            ensures
                scan_ok(*self, *reader),
                same_but_counters(*old(self), *self),
                reader.input == old(reader).input,
                input == reader.input@,
                pos0 == old(reader).pos,
                pos0 <= reader.pos,
                string_byte_start <= reader.pos,
                digits0 == canon0.len(),
                no_raw_value@ == canon0 + input.subrange(pos0, reader.pos as int).filter(
                    canonical_pred(NumericBase::Decimal),
                ),
                buffer@ == buffer0 + input.subrange(pos0, reader.pos as int),
                (!has_punct && !in_exp) ==> forall|i: int|
                    canon0.len() <= i < no_raw_value@.len() ==> is_decimal_digit_byte(
                        #[trigger] no_raw_value@[i],
                    ),
                deny_decimal_separator ==> has_punct,
                is_bigint <==> (reader.pos > pos0 && input.subrange(
                    pos0,
                    reader.pos as int,
                ).last() == 110),
                is_bigint ==> !in_exp && !has_punct,
                decimal_scan_ok(
                    input,
                    pos0,
                    false,
                    false,
                    deny_decimal_separator,
                    false,
                    false,
                ) == ((no_raw_value@.len() > canon0.len()) && !(in_exp && !exp_digits)),
                forall|k: int|
                    pos0 <= k < reader.pos ==> crate::tokens::spec_body_byte(
                        NumericBase::Decimal,
                        #[trigger] input[k],
                    ) || (k == reader.pos - 1 && input[k] == 110),
                in_exp <==> (exists|k: int|
                    pos0 <= k < reader.pos && ((#[trigger] input[k]) == 101 || input[k] == 69)),
                is_bigint || !(decode_ok(input, reader.pos as int) && spec_is_decimal_digit(
                    decoded_char(input, reader.pos as int),
                )),
            decreases input.len() - reader.pos,
        {
            let c = match reader.peek() {
                Some(c) => c,
                None => {
                    proof {
                        assert(decimal_scan_ok(
                            input,
                            reader.pos as int,
                            prev_digit,
                            no_raw_value@.len() > canon0.len(),
                            has_punct,
                            in_exp,
                            exp_digits,
                        ) == ((no_raw_value@.len() > canon0.len()) && !(in_exp
                            && !exp_digits)));
                    }
                    break ;
                },
            };
            let ghost prev0 = prev_digit;
            let ghost seen0 = no_raw_value@.len() > canon0.len();
            let ghost punct0 = has_punct;
            let ghost inexp0 = in_exp;
            let ghost expd0 = exp_digits;
            if NumberLiteral::is_decimal_digit(c) {
                let ghost p = reader.pos as int;
                proof {
                    crate::utf8_cursor::lemma_ascii_decode(input, reader.pos as int);
                }
                let taken = self.step_number_byte(
                    reader,
                    &mut buffer,
                    &mut no_raw_value,
                    true,
                    NumericBase::Decimal,
                    Ghost(pos0),
                    Ghost(buffer0),
                    Ghost(canon0),
                );
                proof {
                    let expd1: bool = if inexp0 {
                        true
                    } else {
                        expd0
                    };
                    assert(decimal_scan_ok(input, p, prev0, seen0, punct0, inexp0, expd0)
                        == decimal_scan_ok(
                        input,
                        reader.pos as int,
                        true,
                        true,
                        punct0,
                        inexp0,
                        expd1,
                    ));
                }
                prev_digit = true;
                if in_exp {
                    exp_digits = true;
                }
            } else if NumberLiteral::is_decimal_separator(c) {
                if has_punct || in_exp {
                    proof {
                        assert(!decimal_scan_ok(
                            input,
                            reader.pos as int,
                            prev0,
                            seen0,
                            punct0,
                            inexp0,
                            expd0,
                        ));
                    }
                    return Err(
                        LexerError {
                            kind: LexerErrorKind::UnexpectedNumber,
                            span: Span { start: string_byte_start, end: reader.pos() },
                        },
                    );
                }
                has_punct = true;
                let ghost p = reader.pos as int;
                proof {
                    crate::utf8_cursor::lemma_ascii_decode(input, reader.pos as int);
                }
                let taken = self.step_number_byte(
                    reader,
                    &mut buffer,
                    &mut no_raw_value,
                    true,
                    NumericBase::Decimal,
                    Ghost(pos0),
                    Ghost(buffer0),
                    Ghost(canon0),
                );
                proof {
                    assert(decimal_scan_ok(input, p, prev0, seen0, punct0, inexp0, expd0)
                        == decimal_scan_ok(
                        input,
                        reader.pos as int,
                        false,
                        true,
                        true,
                        inexp0,
                        expd0,
                    ));
                }
                prev_digit = false;
            } else if NumberLiteral::is_exponent_indicator(c) {
                if in_exp {
                    proof {
                        assert(decimal_scan_ok(
                            input,
                            reader.pos as int,
                            prev0,
                            seen0,
                            punct0,
                            inexp0,
                            expd0,
                        ) == (seen0 && expd0));
                    }
                    break ;
                }
                in_exp = true;
                let ghost p = reader.pos as int;
                proof {
                    crate::utf8_cursor::lemma_ascii_decode(input, reader.pos as int);
                }
                let _taken = self.step_number_byte(
                    reader,
                    &mut buffer,
                    &mut no_raw_value,
                    true,
                    NumericBase::Decimal,
                    Ghost(pos0),
                    Ghost(buffer0),
                    Ghost(canon0),
                );
                prev_digit = false;
                let sign = match reader.peek() {
                    Some(d) => NumberLiteral::is_exponent_sign(d),
                    None => false,
                };
                if sign {
                    let ghost p2 = reader.pos as int;
                    proof {
                        crate::utf8_cursor::lemma_ascii_decode(input, reader.pos as int);
                    }
                    let _taken2 = self.step_number_byte(
                        reader,
                        &mut buffer,
                        &mut no_raw_value,
                        true,
                        NumericBase::Decimal,
                        Ghost(pos0),
                        Ghost(buffer0),
                        Ghost(canon0),
                    );
                    proof {
                        assert(p2 == p + 1);
                        assert(decimal_scan_ok(input, p, prev0, seen0, punct0, false, expd0)
                            == decimal_scan_ok(
                            input,
                            reader.pos as int,
                            false,
                            true,
                            punct0,
                            true,
                            false,
                        ));
                    }
                } else {
                    proof {
                        assert(decimal_scan_ok(input, p, prev0, seen0, punct0, false, expd0)
                            == decimal_scan_ok(
                            input,
                            reader.pos as int,
                            false,
                            true,
                            punct0,
                            true,
                            false,
                        ));
                    }
                }
            } else if NumberLiteral::is_numeric_literal_separator(c) {
                if !prev_digit {
                    proof {
                        assert(!decimal_scan_ok(
                            input,
                            reader.pos as int,
                            prev0,
                            seen0,
                            punct0,
                            inexp0,
                            expd0,
                        ));
                    }
                    return Err(
                        LexerError {
                            kind: LexerErrorKind::InvalidDigit {
                                base: NumericBase::Decimal,
                                found: c,
                            },
                            span: Span { start: string_byte_start, end: reader.pos() },
                        },
                    );
                }
                let next_ok = match reader.peek_n(1) {
                    Some(d) => NumberLiteral::is_decimal_digit(d),
                    None => false,
                };
                if !next_ok {
                    proof {
                        assert(!decimal_scan_ok(
                            input,
                            reader.pos as int,
                            prev0,
                            seen0,
                            punct0,
                            inexp0,
                            expd0,
                        ));
                    }
                    return Err(
                        LexerError {
                            kind: LexerErrorKind::InvalidDigit {
                                base: NumericBase::Decimal,
                                found: c,
                            },
                            span: Span { start: string_byte_start, end: reader.pos() },
                        },
                    );
                }
                let ghost p = reader.pos as int;
                proof {
                    crate::utf8_cursor::lemma_ascii_decode(input, reader.pos as int);
                }
                let taken = self.step_number_byte(
                    reader,
                    &mut buffer,
                    &mut no_raw_value,
                    false,
                    NumericBase::Decimal,
                    Ghost(pos0),
                    Ghost(buffer0),
                    Ghost(canon0),
                );
                proof {
                    assert(decimal_scan_ok(input, p, prev0, seen0, punct0, inexp0, expd0)
                        == decimal_scan_ok(
                        input,
                        reader.pos as int,
                        false,
                        seen0,
                        punct0,
                        inexp0,
                        expd0,
                    ));
                }
                prev_digit = false;
            } else if NumberLiteral::is_bigint_suffix(c) {
                if has_punct || in_exp {
                    proof {
                        assert(!decimal_scan_ok(
                            input,
                            reader.pos as int,
                            prev0,
                            seen0,
                            punct0,
                            inexp0,
                            expd0,
                        ));
                    }
                    return Err(
                        LexerError {
                            kind: LexerErrorKind::InvalidBigInt {
                                reason: String::from_str(
                                    "BigInt suffix after a fraction or exponent",
                                ),
                            },
                            span: Span { start: string_byte_start, end: reader.pos() },
                        },
                    );
                }
                let ghost p = reader.pos as int;
                proof {
                    crate::utf8_cursor::lemma_ascii_decode(input, reader.pos as int);
                }
                let _taken = self.step_number_byte(
                    reader,
                    &mut buffer,
                    &mut no_raw_value,
                    false,
                    NumericBase::Decimal,
                    Ghost(pos0),
                    Ghost(buffer0),
                    Ghost(canon0),
                );
                proof {
                    assert(decimal_scan_ok(input, p, prev0, seen0, punct0, inexp0, expd0)
                        == seen0);
                }
                is_bigint = true;
                break ;
            } else {
                proof {
                    assert(decimal_scan_ok(
                        input,
                        reader.pos as int,
                        prev0,
                        seen0,
                        punct0,
                        inexp0,
                        expd0,
                    ) == (seen0 && !(inexp0 && !expd0)));
                }
                break ;
            }
        }
        if in_exp && !exp_digits {
            // an exponent indicator with no digits after it
            return Err(
                LexerError {
                    kind: LexerErrorKind::UnexpectedNumber,
                    span: Span { start: string_byte_start, end: reader.pos() },
                },
            );
        }
        if no_raw_value.len() == digits0 {
            let err_kind = match reader.peek() {
                Some(c) => LexerErrorKind::InvalidDigit { base: NumericBase::Decimal, found: c },
                None => LexerErrorKind::UnexpectedEOF,
            };
            return Err(
                LexerError { kind: err_kind, span: Span { start: string_byte_start, end: reader.pos() } },
            );
        }
        proof {
            lemma_canonical_filter_shape(
                canon0,
                no_raw_value@,
                input.subrange(pos0, reader.pos as int),
                NumericBase::Decimal,
            );
            if reader.pos == pos0 {
                reveal(Seq::filter);
                assert(input.subrange(pos0, pos0).filter(canonical_pred(NumericBase::Decimal))
                    =~= Seq::<u8>::empty());
                assert(no_raw_value@ =~= canon0);
                assert(false);
            }
        }
        Ok(NumberResult { buffer, no_raw_value, is_bigint, has_exponent: in_exp })
    }


    /// Reads a numeric literal that takes the decimal path: one led by a
    /// fraction point, or a plain decimal form.
    #[verifier::rlimit(100)]
    #[verifier::spinoff_prover]

    /// Reads a numeric literal led by a fraction point.
    #[verifier::rlimit(100)]
    #[verifier::spinoff_prover]
    fn read_dot_decimal(
        &mut self,
        reader: &mut Utf8Cursor,
        start: usize,
        line0: usize,
        col0: usize,
    ) -> (r: Result<Token, LexerError>)
        requires
            scan_ok(*old(self), *old(reader)),
            decode_ok(old(reader).input@, old(reader).pos as int),
            start == old(reader).pos,
            spec_is_number_start(
                decoded_char(old(reader).input@, old(reader).pos as int),
                spec_peek_ahead(old(reader).input@, old(reader).pos as int, 1),
            ),
            decoded_char(old(reader).input@, old(reader).pos as int) == '.',
        ensures
            scan_ok(*final(self), *final(reader)),
            same_but_counters(*old(self), *final(self)),
            final(reader).input == old(reader).input,
            old(reader).pos <= final(reader).pos,
            (r matches Ok(t) ==> {
                &&& token_wf(t, old(reader).input@)
                &&& t.start == old(reader).pos
                &&& t.end == final(reader).pos
                &&& final(reader).pos > old(reader).pos
                &&& t.kind matches TokenKind::NumericLiteral { .. }
            }),
            (r matches Err(e) ==> e.span.start <= final(reader).pos <= e.span.end
                && e.span.end <= final(reader).input@.len()),
            (r is Ok <==> decimal_scan_ok(
                old(reader).input@,
                old(reader).pos + 1,
                false,
                false,
                true,
                false,
                false,
            )),
            (r matches Ok(t) ==> {
                &&& t.kind->NumericLiteral_base == NumericBase::Decimal
                &&& t.kind->NumericLiteral_legacy_octal == false
                &&& (t.kind->NumericLiteral_is_bigint || !(decode_ok(
                    old(reader).input@,
                    final(reader).pos as int,
                ) && spec_is_decimal_digit(
                    decoded_char(old(reader).input@, final(reader).pos as int),
                )))
            }),
            (r matches Err(e) ==> (e.kind matches LexerErrorKind::InvalidDigit { .. }
                || e.kind matches LexerErrorKind::UnexpectedNumber
                || e.kind matches LexerErrorKind::InvalidBigInt { .. }
                || e.kind matches LexerErrorKind::UnexpectedEOF)),
            (r matches Err(e) ==> (e.kind matches LexerErrorKind::InvalidDigit { base: eb, found }
                ==> decode_ok(old(reader).input@, final(reader).pos as int) && found
                == decoded_char(old(reader).input@, final(reader).pos as int))),
    {
        let ghost pos0 = reader.pos as int;
        let ghost input = reader.input@;
        let mut buffer: Vec<u8> = Vec::new();
        let mut canonical: Vec<u8> = Vec::new();
        proof {
            assert(input.subrange(pos0, pos0) =~= buffer@);
        }
        let c = reader.peek().unwrap();
        proof {
            crate::utf8_cursor::lemma_ascii_decode(input, pos0);
        }
        if c == '.' {
            canonical.push(48);
            let _t0 = self.take_byte(reader, &mut buffer);
            canonical.push(46);
            let ghost canon_pre = canonical@;
            proof {
                assert(buffer@ =~= input.subrange(pos0, reader.pos as int));
                assert(canon_pre.len() == 2 && canon_pre[0] == 48 && canon_pre[1] == 46);
                assert(canon_pre =~= seq![48u8, 46u8]);
            }
            let ghost dot_at = reader.pos as int;
            let nr = match self.read_decimal_literal(reader, buffer, canonical, start, true) {
                Ok(nr) => nr,
                Err(e) => {
                    proof {
                        assert(dot_at == pos0 + 1);
                        assert(!decimal_scan_ok(input, pos0 + 1, false, false, true, false, false));
                    }
                    return Err(e);
                },
            };
            proof {
                assert(dot_at == pos0 + 1);
                assert(decimal_scan_ok(input, pos0 + 1, false, false, true, false, false));
            }
                proof {
                    let pe: int = pos0 + 1;
                    let pos1: int = reader.pos as int;
                    assert(nr.buffer@ =~= input.subrange(pos0, pos1));
                    let consumed = input.subrange(pe, pos1);
                    assert(consumed.len() > 0);
                    assert(nr.buffer@.last() == consumed.last());
                    assert(nr.no_raw_value@.subrange(0, 0) =~= Seq::<u8>::empty());
                    assert(nr.no_raw_value@.subrange(0, 2) == canon_pre);
                    assert(nr.no_raw_value@[0] == nr.no_raw_value@.subrange(0, 2)[0]);
                    assert(nr.no_raw_value@[1] == nr.no_raw_value@.subrange(0, 2)[1]);
                    assert(nr.no_raw_value@[0] == 48 && nr.no_raw_value@[1] == 46);
                    assert(nr.buffer@[0] == 46);
                    lemma_filter_one(
                        Seq::<u8>::empty(),
                        46,
                        canonical_pred(NumericBase::Decimal),
                    );
                    assert(Seq::<u8>::empty() + seq![46u8] =~= seq![46u8]);
                    proof_decimal_dot_filter(nr.buffer@, consumed, nr.no_raw_value@, canon_pre);
                    let lex_len = nr.buffer@.len() as int;
                    assert forall|k: int|
                        0 <= k < lex_len implies crate::tokens::spec_body_byte(
                        NumericBase::Decimal,
                        #[trigger] nr.buffer@[k],
                    ) || (k == lex_len - 1 && nr.buffer@[k] == 110) by {
                        if k > 0 {
                            assert(nr.buffer@[k] == input[pos0 + k]);
                        }
                    }
                    if nr.has_exponent {
                        let k0 = choose|k: int|
                            pos0 + 1 <= k < pos1 && ((#[trigger] input[k]) == 101 || input[k]
                                == 69);
                        assert(nr.buffer@[k0 - pos0] == input[k0]);
                        assert(exists|k: int|
                            0 <= k < lex_len && ((#[trigger] nr.buffer@[k]) == 101
                                || nr.buffer@[k] == 69));
                    }
                    if exists|k: int|
                        0 <= k < lex_len && ((#[trigger] nr.buffer@[k]) == 101 || nr.buffer@[k]
                            == 69) {
                        let k0 = choose|k: int|
                            0 <= k < lex_len && ((#[trigger] nr.buffer@[k]) == 101
                                || nr.buffer@[k] == 69);
                        assert(input[pos0 + k0] == nr.buffer@[k0]);
                        assert(nr.has_exponent);
                    }
                    assert(numeric_kind_wf(
                        nr.buffer@,
                        nr.no_raw_value@,
                        NumericBase::Decimal,
                        false,
                        nr.is_bigint,
                        nr.has_exponent,
                        nr.buffer@,
                    ));
                }
            return Ok(self.finish_numeric(
                reader,
                nr,
                NumericBase::Decimal,
                false,
                start,
                line0,
                col0,
                Ghost(pos0 + 1),
            ));
        }
        // unreachable: the cursor stands on the fraction point
        proof {
            assert(false);
        }
        Err(
            LexerError {
                kind: LexerErrorKind::UnexpectedNumber,
                span: Span { start, end: reader.pos() },
            },
        )
    }

    /// Reads a plain decimal literal (one not led by a fraction point).
    #[verifier::rlimit(100)]
    #[verifier::spinoff_prover]
    fn read_plain_decimal(
        &mut self,
        reader: &mut Utf8Cursor,
        start: usize,
        line0: usize,
        col0: usize,
    ) -> (r: Result<Token, LexerError>)
        requires
            scan_ok(*old(self), *old(reader)),
            decode_ok(old(reader).input@, old(reader).pos as int),
            start == old(reader).pos,
            spec_is_number_start(
                decoded_char(old(reader).input@, old(reader).pos as int),
                spec_peek_ahead(old(reader).input@, old(reader).pos as int, 1),
            ),
            decoded_char(old(reader).input@, old(reader).pos as int) != '.',
        ensures
            scan_ok(*final(self), *final(reader)),
            same_but_counters(*old(self), *final(self)),
            final(reader).input == old(reader).input,
            old(reader).pos <= final(reader).pos,
            (r matches Ok(t) ==> {
                &&& token_wf(t, old(reader).input@)
                &&& t.start == old(reader).pos
                &&& t.end == final(reader).pos
                &&& final(reader).pos > old(reader).pos
                &&& t.kind matches TokenKind::NumericLiteral { .. }
            }),
            (r matches Err(e) ==> e.span.start <= final(reader).pos <= e.span.end
                && e.span.end <= final(reader).input@.len()),
            (r is Ok <==> decimal_scan_ok(
                old(reader).input@,
                old(reader).pos as int,
                false,
                false,
                false,
                false,
                false,
            )),
            (r matches Ok(t) ==> {
                &&& t.kind->NumericLiteral_base == NumericBase::Decimal
                &&& t.kind->NumericLiteral_legacy_octal == false
                &&& (t.kind->NumericLiteral_is_bigint || !(decode_ok(
                    old(reader).input@,
                    final(reader).pos as int,
                ) && spec_is_decimal_digit(
                    decoded_char(old(reader).input@, final(reader).pos as int),
                )))
            }),
            (r matches Err(e) ==> (e.kind matches LexerErrorKind::InvalidDigit { .. }
                || e.kind matches LexerErrorKind::UnexpectedNumber
                || e.kind matches LexerErrorKind::InvalidBigInt { .. }
                || e.kind matches LexerErrorKind::UnexpectedEOF)),
            (r matches Err(e) ==> (e.kind matches LexerErrorKind::InvalidDigit { base: eb, found }
                ==> decode_ok(old(reader).input@, final(reader).pos as int) && found
                == decoded_char(old(reader).input@, final(reader).pos as int))),
    {
        let ghost pos0 = reader.pos as int;
        let ghost input = reader.input@;
        let mut buffer: Vec<u8> = Vec::new();
        let mut canonical: Vec<u8> = Vec::new();
        proof {
            assert(input.subrange(pos0, pos0) =~= buffer@);
        }
        proof {
            crate::utf8_cursor::lemma_ascii_decode(input, pos0);
        }
        let nr = match self.read_decimal_literal(reader, buffer, canonical, start, false) {
            Ok(nr) => nr,
            Err(e) => {
                proof {
                    assert(!decimal_scan_ok(input, pos0, false, false, false, false, false));
                }
                return Err(e);
            },
        };
        proof {
            let pe: int = pos0;
            let pos1: int = reader.pos as int;
            assert(nr.buffer@ =~= input.subrange(pos0, pos1));
            let consumed = input.subrange(pe, pos1);
            assert(consumed.len() > 0);
            assert(nr.buffer@.last() == consumed.last());
            assert(nr.no_raw_value@.subrange(0, 0) =~= Seq::<u8>::empty());
            assert(spec_is_decimal_digit(decoded_char(input, pos0)));
            assert(input[pos0] == decoded_char(input, pos0) as u8);
            assert(nr.buffer@[0] != 46);
            assert(nr.buffer@ =~= consumed);
            assert(Seq::<u8>::empty() + consumed.filter(canonical_pred(NumericBase::Decimal))
                =~= consumed.filter(canonical_pred(NumericBase::Decimal)));
            let lex_len = nr.buffer@.len() as int;
            assert forall|k: int|
                0 <= k < lex_len implies crate::tokens::spec_body_byte(
                NumericBase::Decimal,
                #[trigger] nr.buffer@[k],
            ) || (k == lex_len - 1 && nr.buffer@[k] == 110) by {
                assert(nr.buffer@[k] == input[pos0 + k]);
            }
            if nr.has_exponent {
                let k0 = choose|k: int|
                    pos0 <= k < pos1 && ((#[trigger] input[k]) == 101 || input[k] == 69);
                assert(nr.buffer@[k0 - pos0] == input[k0]);
                assert(exists|k: int|
                    0 <= k < lex_len && ((#[trigger] nr.buffer@[k]) == 101 || nr.buffer@[k]
                        == 69));
            }
            if exists|k: int|
                0 <= k < lex_len && ((#[trigger] nr.buffer@[k]) == 101 || nr.buffer@[k] == 69) {
                let k0 = choose|k: int|
                    0 <= k < lex_len && ((#[trigger] nr.buffer@[k]) == 101 || nr.buffer@[k]
                        == 69);
                assert(input[pos0 + k0] == nr.buffer@[k0]);
                assert(nr.has_exponent);
            }
            assert(numeric_kind_wf(
                nr.buffer@,
                nr.no_raw_value@,
                NumericBase::Decimal,
                false,
                nr.is_bigint,
                nr.has_exponent,
                nr.buffer@,
            ));
        }
        Ok(self.finish_numeric(
            reader,
            nr,
            NumericBase::Decimal,
            false,
            start,
            line0,
            col0,
            Ghost(pos0),
        ))
    }

    fn read_decimal_start(
        &mut self,
        reader: &mut Utf8Cursor,
        start: usize,
        line0: usize,
        col0: usize,
    ) -> (r: Result<Token, LexerError>)
        requires
            scan_ok(*old(self), *old(reader)),
            decode_ok(old(reader).input@, old(reader).pos as int),
            start == old(reader).pos,
            spec_is_number_start(
                decoded_char(old(reader).input@, old(reader).pos as int),
                spec_peek_ahead(old(reader).input@, old(reader).pos as int, 1),
            ),
        ensures
            scan_ok(*final(self), *final(reader)),
            same_but_counters(*old(self), *final(self)),
            final(reader).input == old(reader).input,
            old(reader).pos <= final(reader).pos,
            (r matches Ok(t) ==> {
                &&& token_wf(t, old(reader).input@)
                &&& t.start == old(reader).pos
                &&& t.end == final(reader).pos
                &&& final(reader).pos > old(reader).pos
                &&& t.kind matches TokenKind::NumericLiteral { .. }
            }),
            (r matches Err(e) ==> e.span.start <= final(reader).pos <= e.span.end
                && e.span.end <= final(reader).input@.len()),
            (r is Ok <==> (if decoded_char(old(reader).input@, old(reader).pos as int) == '.' {
                decimal_scan_ok(
                    old(reader).input@,
                    old(reader).pos + 1,
                    false,
                    false,
                    true,
                    false,
                    false,
                )
            } else {
                decimal_scan_ok(
                    old(reader).input@,
                    old(reader).pos as int,
                    false,
                    false,
                    false,
                    false,
                    false,
                )
            })),
            (r matches Ok(t) ==> {
                &&& t.kind->NumericLiteral_base == NumericBase::Decimal
                &&& t.kind->NumericLiteral_legacy_octal == false
                &&& (t.kind->NumericLiteral_is_bigint || !(decode_ok(
                    old(reader).input@,
                    final(reader).pos as int,
                ) && spec_is_decimal_digit(
                    decoded_char(old(reader).input@, final(reader).pos as int),
                )))
            }),
            (r matches Err(e) ==> (e.kind matches LexerErrorKind::InvalidDigit { .. }
                || e.kind matches LexerErrorKind::UnexpectedNumber
                || e.kind matches LexerErrorKind::InvalidBigInt { .. }
                || e.kind matches LexerErrorKind::UnexpectedEOF)),
            (r matches Err(e) ==> (e.kind matches LexerErrorKind::InvalidDigit { base: eb, found }
                ==> decode_ok(old(reader).input@, final(reader).pos as int) && found
                == decoded_char(old(reader).input@, final(reader).pos as int))),
    {
        let c = reader.peek().unwrap();
        if c == '.' {
            self.read_dot_decimal(reader, start, line0, col0)
        } else {
            self.read_plain_decimal(reader, start, line0, col0)
        }
    }

    /// Builds the numeric token once its parts are read and well formed.
    fn finish_numeric(
        &self,
        reader: &Utf8Cursor,
        nr: NumberResult,
        base: NumericBase,
        legacy_octal: bool,
        start: usize,
        line0: usize,
        col0: usize,
        prefix_end: Ghost<int>,
    ) -> (t: Token)
        requires
            reader.wf(),
            start < reader.pos,
            nr.buffer@ == reader.input@.subrange(start as int, reader.pos as int),
            numeric_kind_wf(
                nr.buffer@,
                nr.no_raw_value@,
                base,
                legacy_octal,
                nr.is_bigint,
                nr.has_exponent,
                nr.buffer@,
            ),
        ensures
            token_wf(t, reader.input@),
            t.start == start,
            t.end == reader.pos,
            t.line == line0,
            t.column == col0,
            t.kind matches TokenKind::NumericLiteral { .. },
            t.kind->NumericLiteral_base == base,
            t.kind->NumericLiteral_legacy_octal == legacy_octal,
            t.kind->NumericLiteral_is_bigint == nr.is_bigint,
            t.kind->NumericLiteral_has_exponent == nr.has_exponent,
            t.kind->NumericLiteral_canonical@ == nr.no_raw_value@,
    {
        proof {
            reveal(crate::tokens::kind_wf);
        }
        let end = reader.pos();
        let lexeme = reader.slice(start, end);
        Token {
            kind: TokenKind::NumericLiteral {
                raw: nr.buffer,
                canonical: nr.no_raw_value,
                base,
                legacy_octal,
                is_bigint: nr.is_bigint,
                has_exponent: nr.has_exponent,
            },
            lexeme,
            start,
            end,
            line: line0,
            column: col0,
        }
    }

    /// Reads one numeric literal starting at the cursor, which must stand on
    /// a decimal digit or on `.` directly followed by one.
    #[verifier::rlimit(100)]
    #[verifier::spinoff_prover]
    pub fn read_numeric_literal(&mut self, reader: &mut Utf8Cursor) -> (r: Result<
        Token,
        LexerError,
    >)
        requires
            scan_ok(*old(self), *old(reader)),
            decode_ok(old(reader).input@, old(reader).pos as int),
            spec_is_number_start(
                decoded_char(old(reader).input@, old(reader).pos as int),
                spec_peek_ahead(old(reader).input@, old(reader).pos as int, 1),
            ),
        ensures
            scan_ok(*final(self), *final(reader)),
            same_but_counters(*old(self), *final(self)),
            final(reader).input == old(reader).input,
            old(reader).pos <= final(reader).pos,
            (r matches Ok(t) ==> {
                &&& token_wf(t, old(reader).input@)
                &&& t.start == old(reader).pos
                &&& t.end == final(reader).pos
                &&& final(reader).pos > old(reader).pos
                &&& t.kind matches TokenKind::NumericLiteral { .. }
            }),
            (r matches Err(e) ==> e.span.start <= final(reader).pos <= e.span.end
                && e.span.end <= final(reader).input@.len()),
            (r is Ok <==> spec_numeric_scan_ok(
                old(reader).input@,
                old(reader).pos as int,
                old(self).strict_mode,
            )),
            (r matches Ok(t) ==> {
                &&& t.kind->NumericLiteral_base == spec_numeric_base_at(
                    old(reader).input@,
                    old(reader).pos as int,
                ).0
                &&& t.kind->NumericLiteral_legacy_octal == spec_numeric_base_at(
                    old(reader).input@,
                    old(reader).pos as int,
                ).1
                &&& (t.kind->NumericLiteral_is_bigint || !(decode_ok(
                    old(reader).input@,
                    final(reader).pos as int,
                ) && spec_base_digit(
                    t.kind->NumericLiteral_base,
                    decoded_char(old(reader).input@, final(reader).pos as int),
                )))
            }),
            (r matches Err(e) ==> (e.kind matches LexerErrorKind::InvalidDigit { .. }
                || e.kind matches LexerErrorKind::UnexpectedNumber
                || e.kind matches LexerErrorKind::InvalidBigInt { .. }
                || e.kind matches LexerErrorKind::UnexpectedEOF
                || e.kind matches LexerErrorKind::LegacyOctalInStrictMode)),
            (r matches Err(e) ==> (e.kind matches LexerErrorKind::InvalidDigit { base: eb, found }
                ==> decode_ok(old(reader).input@, final(reader).pos as int) && found
                == decoded_char(old(reader).input@, final(reader).pos as int))),
            (r matches Err(e) ==> (e.kind matches LexerErrorKind::LegacyOctalInStrictMode
                <==> (old(self).strict_mode && spec_numeric_base_at(
                old(reader).input@,
                old(reader).pos as int,
            ).1))),
    {
        let ghost pos0 = reader.pos as int;
        let ghost input = reader.input@;
        let ghost strict0 = self.strict_mode;
        let start = reader.pos();
        let line0 = self.current_line;
        let col0 = self.current_column;
        let mut buffer: Vec<u8> = Vec::new();
        let mut canonical: Vec<u8> = Vec::new();
        proof {
            assert(input.subrange(pos0, pos0) =~= buffer@);
        }
        let c = reader.peek().unwrap();
        let c1 = reader.peek_n(1);
        proof {
            crate::utf8_cursor::lemma_ascii_decode(input, pos0);
        }

        if c == '0' && c1.is_some() {
            let d = c1.unwrap();
            proof {
                // the character after the leading zero begins a decoded
                // sequence one byte further on
                assert(decoded_len(input, pos0) == 1);
                assert(spec_peek_ahead(input, pos0, 1) == spec_peek_ahead(input, pos0 + 1, 0));
                assert(decode_ok(input, pos0 + 1) && d == decoded_char(input, pos0 + 1));
                crate::utf8_cursor::lemma_ascii_decode(input, pos0 + 1);
            }
            if NumberLiteral::is_hex_start(d) {
                let t0 = self.take_byte(reader, &mut buffer);
                let t1 = self.take_byte(reader, &mut buffer);
                proof {
                    assert(buffer@ =~= input.subrange(pos0, reader.pos as int));
                    assert(spec_numeric_scan_ok(input, pos0, strict0) == radix_scan_ok(
                        input,
                        pos0 + 2,
                        NumericBase::Hex,
                        false,
                        false,
                    ));
                }
                let ghost helper_at = reader.pos as int;
                let nr = match self.read_hex_literal(reader, buffer, canonical, start) {
                    Ok(nr) => nr,
                    Err(e) => {
                        proof {
                            assert(!radix_scan_ok(
                                input,
                                helper_at,
                                NumericBase::Hex,
                                false,
                                false,
                            ));
                        }
                        return Err(e);
                    },
                };
                proof {
                    let pe: int = pos0 + 2;
                    let pos1: int = reader.pos as int;
                    assert(nr.buffer@ =~= input.subrange(pos0, pos1));
                    let consumed = input.subrange(pe, pos1);
                    assert(consumed.len() > 0);
                    assert(nr.buffer@.last() == consumed.last());
                    assert(nr.no_raw_value@.subrange(0, 0) =~= Seq::<u8>::empty());
                    assert(nr.buffer@.subrange(2, nr.buffer@.len() as int) =~= consumed);
                    assert(Seq::<u8>::empty() + consumed.filter(canonical_pred(
                        NumericBase::Hex,
                    )) =~= consumed.filter(canonical_pred(NumericBase::Hex)));
                    assert(numeric_kind_wf(
                        nr.buffer@,
                        nr.no_raw_value@,
                        NumericBase::Hex,
                        false,
                        nr.is_bigint,
                        nr.has_exponent,
                        nr.buffer@,
                    ));
                }
                return Ok(self.finish_numeric(
                    reader,
                    nr,
                    NumericBase::Hex,
                    false,
                    start,
                    line0,
                    col0,
                    Ghost(pos0 + 2),
                ));
            } else if NumberLiteral::is_binary_start(d) {
                let t0 = self.take_byte(reader, &mut buffer);
                let t1 = self.take_byte(reader, &mut buffer);
                proof {
                    assert(buffer@ =~= input.subrange(pos0, reader.pos as int));
                    assert(spec_numeric_scan_ok(input, pos0, strict0) == radix_scan_ok(
                        input,
                        pos0 + 2,
                        NumericBase::Binary,
                        false,
                        false,
                    ));
                }
                let ghost helper_at = reader.pos as int;
                let nr = match self.read_binary_literal(reader, buffer, canonical, start) {
                    Ok(nr) => nr,
                    Err(e) => {
                        proof {
                            assert(!radix_scan_ok(
                                input,
                                helper_at,
                                NumericBase::Binary,
                                false,
                                false,
                            ));
                        }
                        return Err(e);
                    },
                };
                proof {
                    let pe: int = pos0 + 2;
                    let pos1: int = reader.pos as int;
                    assert(nr.buffer@ =~= input.subrange(pos0, pos1));
                    let consumed = input.subrange(pe, pos1);
                    assert(consumed.len() > 0);
                    assert(nr.buffer@.last() == consumed.last());
                    assert(nr.no_raw_value@.subrange(0, 0) =~= Seq::<u8>::empty());
                    assert(nr.buffer@.subrange(2, nr.buffer@.len() as int) =~= consumed);
                    assert(Seq::<u8>::empty() + consumed.filter(canonical_pred(
                        NumericBase::Binary,
                    )) =~= consumed.filter(canonical_pred(NumericBase::Binary)));
                    assert(numeric_kind_wf(
                        nr.buffer@,
                        nr.no_raw_value@,
                        NumericBase::Binary,
                        false,
                        nr.is_bigint,
                        nr.has_exponent,
                        nr.buffer@,
                    ));
                }
                return Ok(self.finish_numeric(
                    reader,
                    nr,
                    NumericBase::Binary,
                    false,
                    start,
                    line0,
                    col0,
                    Ghost(pos0 + 2),
                ));
            } else if NumberLiteral::is_octal_start(d) {
                let _t0 = self.take_byte(reader, &mut buffer);
                let _t1 = self.take_byte(reader, &mut buffer);
                proof {
                    assert(buffer@ =~= input.subrange(pos0, reader.pos as int));
                    assert(spec_numeric_scan_ok(input, pos0, strict0) == radix_scan_ok(
                        input,
                        pos0 + 2,
                        NumericBase::Octal,
                        false,
                        false,
                    ));
                }
                let ghost helper_at = reader.pos as int;
                let nr = match self.read_octal_literal(reader, buffer, canonical, start) {
                    Ok(nr) => nr,
                    Err(e) => {
                        proof {
                            assert(!radix_scan_ok(
                                input,
                                helper_at,
                                NumericBase::Octal,
                                false,
                                false,
                            ));
                        }
                        return Err(e);
                    },
                };
                proof {
                    let pe: int = pos0 + 2;
                    let pos1: int = reader.pos as int;
                    assert(nr.buffer@ =~= input.subrange(pos0, pos1));
                    let consumed = input.subrange(pe, pos1);
                    assert(consumed.len() > 0);
                    assert(nr.buffer@.last() == consumed.last());
                    assert(nr.no_raw_value@.subrange(0, 0) =~= Seq::<u8>::empty());
                    assert(nr.buffer@.subrange(2, nr.buffer@.len() as int) =~= consumed);
                    assert(Seq::<u8>::empty() + consumed.filter(canonical_pred(
                        NumericBase::Octal,
                    )) =~= consumed.filter(canonical_pred(NumericBase::Octal)));
                    assert(numeric_kind_wf(
                        nr.buffer@,
                        nr.no_raw_value@,
                        NumericBase::Octal,
                        false,
                        nr.is_bigint,
                        nr.has_exponent,
                        nr.buffer@,
                    ));
                }
                return Ok(self.finish_numeric(
                    reader,
                    nr,
                    NumericBase::Octal,
                    false,
                    start,
                    line0,
                    col0,
                    Ghost(pos0 + 2),
                ));
            } else if NumberLiteral::is_octal_digit(d) {
                // a legacy octal literal: a bare `0` directly before octal
                // digits
                if self.strict_mode {
                    proof {
                        assert(!spec_numeric_scan_ok(input, pos0, strict0));
                    }
                    return Err(
                        LexerError {
                            kind: LexerErrorKind::LegacyOctalInStrictMode,
                            span: Span { start, end: start + 1 },
                        },
                    );
                }
                let _t0 = self.take_byte(reader, &mut buffer);
                proof {
                    assert(buffer@ =~= input.subrange(pos0, reader.pos as int));
                    assert(spec_numeric_scan_ok(input, pos0, strict0) == radix_scan_ok(
                        input,
                        pos0 + 1,
                        NumericBase::Octal,
                        false,
                        false,
                    ));
                }
                let ghost helper_at = reader.pos as int;
                let nr = match self.read_octal_literal(reader, buffer, canonical, start) {
                    Ok(nr) => nr,
                    Err(e) => {
                        proof {
                            assert(!radix_scan_ok(
                                input,
                                helper_at,
                                NumericBase::Octal,
                                false,
                                false,
                            ));
                        }
                        return Err(e);
                    },
                };
                proof {
                    assert(input[pos0 + 1] == d as u8);
                    assert(crate::tokens::is_octal_digit_byte(input[pos0 + 1]));
                }
                proof {
                    let pe: int = pos0 + 1;
                    let pos1: int = reader.pos as int;
                    assert(nr.buffer@ =~= input.subrange(pos0, pos1));
                    let consumed = input.subrange(pe, pos1);
                    assert(consumed.len() > 0);
                    assert(nr.buffer@.last() == consumed.last());
                    assert(nr.no_raw_value@.subrange(0, 0) =~= Seq::<u8>::empty());
                    assert(nr.buffer@.subrange(1, nr.buffer@.len() as int) =~= consumed);
                    assert(Seq::<u8>::empty() + consumed.filter(canonical_pred(
                        NumericBase::Octal,
                    )) =~= consumed.filter(canonical_pred(NumericBase::Octal)));
                    assert(numeric_kind_wf(
                        nr.buffer@,
                        nr.no_raw_value@,
                        NumericBase::Octal,
                        true,
                        nr.is_bigint,
                        nr.has_exponent,
                        nr.buffer@,
                    ));
                }
                return Ok(self.finish_numeric(
                    reader,
                    nr,
                    NumericBase::Octal,
                    true,
                    start,
                    line0,
                    col0,
                    Ghost(pos0 + 1),
                ));
            }
        }
        proof {
            if c == '.' {
                assert(spec_numeric_scan_ok(input, pos0, strict0) == decimal_scan_ok(
                    input,
                    pos0 + 1,
                    false,
                    false,
                    true,
                    false,
                    false,
                ));
            } else {
                assert(spec_numeric_scan_ok(input, pos0, strict0) == decimal_scan_ok(
                    input,
                    pos0,
                    false,
                    false,
                    false,
                    false,
                    false,
                ));
            }
        }
        self.read_decimal_start(reader, start, line0, col0)
    }
}

} // verus!
