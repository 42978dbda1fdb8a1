//! The laws of the token stream, stated over the chain predicate that every
//! successful scan establishes.

use vstd::prelude::*;
use crate::bigint::is_radix_digit_byte;
use crate::bigint::spec_bigint_parsable;
use crate::bigint::spec_radix;
use crate::tokens::Token;
use crate::tokens::TokenKind;
use crate::tokens::concat_lexemes;
use crate::tokens::escapes_wf;
use crate::tokens::token_wf;
use crate::tokens::tokens_chain;

verus! {

/// Every token of a chain starts at or after the chain's origin.
proof fn lemma_chain_lower(ts: Seq<Token>, input: Seq<u8>, from: int, to: int, k: int)
    requires
        tokens_chain(ts, input, from, to),
        0 <= k < ts.len(),
    ensures
        from <= ts[k].start,
    decreases k,
{
    if k > 0 {
        lemma_chain_lower(ts, input, from, to, k - 1);
        assert(token_wf(ts[k - 1], input));
        assert(ts[k - 1].end == ts[k].start);
    }
}

/// Dropping the last token of a chain leaves a chain up to that token's
/// start.
#[verifier::rlimit(100)]
#[verifier::spinoff_prover]
proof fn lemma_chain_unsnoc(ts: Seq<Token>, input: Seq<u8>, from: int, to: int)
    requires
        tokens_chain(ts, input, from, to),
        ts.len() > 0,
    ensures
        tokens_chain(ts.drop_last(), input, from, ts.last().start as int),
        ts.last().end == to,
        token_wf(ts.last(), input),
{
    let rest = ts.drop_last();
    assert(token_wf(ts[ts.len() - 1], input));
    if rest.len() > 0 {
        assert(rest[0] == ts[0]);
        assert(rest[rest.len() - 1] == ts[ts.len() - 2]);
        assert(ts[ts.len() - 2].end == ts[ts.len() - 1].start);
        assert forall|i: int| 0 <= i < rest.len() implies token_wf(#[trigger] rest[i], input) by {
            assert(rest[i] == ts[i]);
        }
        assert forall|i: int| 0 <= i < rest.len() - 1 implies (#[trigger] rest[i]).end == rest[i
            + 1].start by {
            assert(rest[i] == ts[i] && rest[i + 1] == ts[i + 1]);
        }
        assert(token_wf(ts[0], input));
        lemma_chain_lower(ts, input, from, to, ts.len() - 1);
        assert(from <= ts.last().start as int);
    } else {
        assert(ts[0] == ts.last());
    }
}

/// Losslessness: the lexemes of a scan's tokens, concatenated in order, are
/// exactly the scanned bytes.  Applied to a whole-input scan, concatenating
/// every lexeme reproduces the input byte for byte.
pub proof fn lemma_scan_lossless(ts: Seq<Token>, input: Seq<u8>, from: int, to: int)
    requires
        tokens_chain(ts, input, from, to),
    ensures
        concat_lexemes(ts) == input.subrange(from, to),
    decreases ts.len(),
{
    if ts.len() == 0 {
        assert(concat_lexemes(ts) =~= input.subrange(from, to));
    } else {
        lemma_chain_unsnoc(ts, input, from, to);
        let last = ts.last();
        lemma_scan_lossless(ts.drop_last(), input, from, last.start as int);
        assert(concat_lexemes(ts) == input.subrange(from, last.start as int) + last.lexeme@);
        assert(last.lexeme@ == input.subrange(last.start as int, last.end as int));
        assert(input.subrange(from, last.start as int) + input.subrange(
            last.start as int,
            to,
        ) =~= input.subrange(from, to));
    }
}

/// Adjacency: each token of a scan ends exactly where the next one starts.
pub proof fn lemma_tokens_adjacent(ts: Seq<Token>, input: Seq<u8>, from: int, to: int)
    requires
        tokens_chain(ts, input, from, to),
    ensures
        forall|i: int| 0 <= i < ts.len() - 1 ==> (#[trigger] ts[i]).end == ts[i + 1].start,
{
}

/// Span soundness: every token of a scan covers a nonempty byte range whose
/// width is the byte length of its lexeme.
pub proof fn lemma_token_spans(ts: Seq<Token>, input: Seq<u8>, from: int, to: int)
    requires
        tokens_chain(ts, input, from, to),
    ensures
        forall|i: int|
            0 <= i < ts.len() ==> (#[trigger] ts[i]).start < ts[i].end && ts[i].end - ts[i].start
                == ts[i].lexeme@.len(),
{
    assert forall|i: int|
        0 <= i < ts.len() implies (#[trigger] ts[i]).start < ts[i].end && ts[i].end - ts[i].start
        == ts[i].lexeme@.len() by {
        assert(token_wf(ts[i], input));
    }
}

/// Escape-record soundness: in a well-formed string token, each escape
/// record's raw bytes sit verbatim at its recorded position inside the
/// literal's interior (so the position plus the span's length never passes
/// the interior's length), the records come in order without overlap, and
/// they cover exactly the backslash-initiated sequences of the interior.
/// The token's decoded value is the interior's plain segments decoded as
/// UTF-8 with each escape span replaced by its resolved code point.
pub proof fn lemma_string_escapes(t: Token, input: Seq<u8>)
    requires
        token_wf(t, input),
        t.kind matches TokenKind::StringLiteral { .. },
    ensures
        t.kind matches TokenKind::StringLiteral { raw, value, escapes } ==> {
            &&& escapes_wf(raw@, escapes@)
            &&& forall|i: int|
                0 <= i < escapes@.len() ==> (#[trigger] escapes@[i]).position_in_raw
                    + escapes@[i].raw@.len() <= raw@.len()
            &&& value@ == crate::tokens::interior_value(raw@, escapes@)
        },
{
    reveal(crate::tokens::kind_wf);
}

/// BigInt soundness: a well-formed BigInt numeric token carries no fraction
/// or exponent structure, and its canonical digits parse, so `bigint_value`
/// returns a value for it.
pub proof fn lemma_bigint_token(t: Token, input: Seq<u8>)
    requires
        token_wf(t, input),
        t.kind matches TokenKind::NumericLiteral { is_bigint: true, .. },
    ensures
        spec_bigint_parsable(t.kind),
        t.kind matches TokenKind::NumericLiteral { has_exponent, .. } && !has_exponent,
{
    reveal(crate::tokens::kind_wf);
    match t.kind {
        TokenKind::NumericLiteral { ref canonical, base, .. } => {
            assert forall|i: int| 0 <= i < canonical@.len() implies is_radix_digit_byte(
                spec_radix(base),
                #[trigger] canonical@[i],
            ) by {
                assert(crate::tokens::is_base_digit_byte(base, canonical@[i]));
            }
        },
        _ => {},
    }
}

} // verus!
