//! Token and token-kind types, the character classes of the dispatcher, and
//! the well-formedness predicates that every emitted token satisfies.

use vstd::prelude::*;
use crate::tables::KeywordEnum;
use crate::tables::OperatorEnum;
use crate::tables::spec_keyword;
use crate::tables::spec_keyword_text;
use crate::tables::spec_operator;
use crate::tables::spec_operator_text;
use crate::number_literal::spec_is_decimal_digit;
use crate::unicode::space_separator;
use crate::unicode::xid_continue;
use crate::unicode::xid_start;
use crate::unicode::check_space_separator;
use crate::unicode::check_xid_continue;
use crate::unicode::check_xid_start;
use vstd::utf8::decode_utf8;
use vstd::utf8::encode_utf8;
use vstd::utf8::valid_utf8;

verus! {

#[derive(Debug, Clone, Copy, PartialEq, Eq, Structural)]
pub enum EscapeKind {
    Octal,
    Hex,
    Unicode,
    Simple,
}

/// One decoded escape sequence of a string literal: its family, the raw bytes
/// of the sequence, the code point it resolves to, and the byte offset of its
/// backslash within the literal's `raw` interior.
#[derive(Debug, Clone, PartialEq)]
pub struct EscapeInfo {
    pub kind: EscapeKind,
    pub raw: Vec<u8>,
    pub resolved_char: char,
    pub position_in_raw: usize,
}

#[derive(Debug, Clone, Copy, PartialEq, Eq, Structural)]
pub enum NumericBase {
    Decimal,
    Hex,
    Binary,
    Octal,
}

#[derive(Debug, Clone, Copy, PartialEq, Eq, Structural)]
pub enum CommentKind {
    SingleLine,
    MultiLine,
    NoComment,
}

#[derive(Debug, Clone, Copy, PartialEq, Eq, Structural)]
pub enum StringKind {
    DoubleQuote,
    SingleQuote,
    TemplateString,
    NoString,
}

#[derive(Debug, Clone, PartialEq)]
pub enum TokenKind {
    /// An identifier word; the payload is the decoded text of the lexeme.
    Identifier(String),
    /// A numeric literal.  `raw` is the exact lexeme; `canonical` is the
    /// digit text with separators stripped, the base prefix and the BigInt
    /// suffix removed, and a leading `0` supplied before a bare `.`; the
    /// numeric value is a function of `canonical` and `base` alone.
    NumericLiteral {
        raw: Vec<u8>,
        canonical: Vec<u8>,
        base: NumericBase,
        legacy_octal: bool,
        is_bigint: bool,
        has_exponent: bool,
    },
    /// A quoted string or one textual piece of a template literal.  `raw`
    /// holds the interior bytes verbatim (escapes unresolved, delimiters
    /// excluded), `value` the decoded text, `escapes` one record per escape
    /// sequence of `raw`.
    StringLiteral { raw: Vec<u8>, value: String, escapes: Vec<EscapeInfo> },
    TemplateLiteral(String),
    /// Never produced: a `/` always scans as an operator, and a downstream
    /// parser that knows a regular expression begins there retokenizes.
    RegexLiteral(String),
    Keyword(KeywordEnum),
    Operator(OperatorEnum),
    /// The opening backtick of a template literal.
    TemplateStart,
    TemplateMiddle,
    /// The closing backtick of a template literal.
    TemplateEnd,
    /// The `${` that opens a template interpolation.
    DollarCurlyOpen,
    CommentLine(String),
    CommentBlock(String),
    HtmlCommentStart,
    HtmlCommentEnd,
    Whitespace,
    Newline,
    /// Never produced by a scan: end of input simply ends the token list.
    Eof,
    Error(String),
}

/// An immutable token: its kind, the exact byte slice of the input it covers
/// (half-open `[start, end)`), and the 0-based line and column of its first
/// byte.
#[derive(Debug, Clone)]
pub struct Token {
    pub kind: TokenKind,
    pub lexeme: Vec<u8>,
    pub start: usize,
    pub end: usize,
    pub line: usize,
    pub column: usize,
}

pub open spec fn spec_is_line_break(c: char) -> bool {
    c == '\u{000A}' || c == '\u{000D}' || c == '\u{2028}' || c == '\u{2029}'
}

pub open spec fn spec_is_multichar_line_break(c: char, next: Option<char>) -> bool {
    c == '\u{000D}' && next == Some('\u{000A}')
}

pub open spec fn spec_string_kind(c: char) -> StringKind {
    if c == '"' {
        StringKind::DoubleQuote
    } else if c == '\'' {
        StringKind::SingleQuote
    } else if c == '`' {
        StringKind::TemplateString
    } else {
        StringKind::NoString
    }
}

pub open spec fn spec_is_number_start(c: char, next: Option<char>) -> bool {
    ||| spec_is_decimal_digit(c)
    ||| (c == '.' && (next matches Some(d) && spec_is_decimal_digit(d)))
}

pub open spec fn spec_is_number_char(c: char) -> bool {
    spec_is_decimal_digit(c) || c == '.' || c == 'e' || c == 'E'
}

/// Whitespace outside line terminators: TAB, VT, FF, the byte-order mark,
/// and every code point of the Unicode category `Zs`.
pub open spec fn spec_is_white_space(c: char) -> bool {
    ||| c == '\u{0009}'
    ||| c == '\u{000B}'
    ||| c == '\u{000C}'
    ||| c == '\u{FEFF}'
    ||| space_separator(c)
}

pub open spec fn spec_comment_start(c: char, next: Option<char>) -> CommentKind {
    if c == '/' && next == Some('/') {
        CommentKind::SingleLine
    } else if c == '/' && next == Some('*') {
        CommentKind::MultiLine
    } else {
        CommentKind::NoComment
    }
}

pub open spec fn spec_is_hashbang(c: char, next: Option<char>) -> bool {
    c == '#' && next == Some('!')
}

pub open spec fn spec_comment_end(c: char, next: Option<char>) -> CommentKind {
    if c == '*' && next == Some('/') {
        CommentKind::MultiLine
    } else if spec_is_line_break(c) {
        CommentKind::SingleLine
    } else {
        CommentKind::NoComment
    }
}

/// Identifier start: `XID_Start`, `$`, or `_`.
pub open spec fn spec_is_identifier_start(c: char) -> bool {
    xid_start(c) || c == '$' || c == '_'
}

/// Identifier continuation: `XID_Continue` or `$`.
pub open spec fn spec_is_identifier_continue(c: char) -> bool {
    xid_continue(c) || c == '$'
}

pub open spec fn spec_is_single_escape_char(c: char) -> bool {
    c == '\'' || c == '"' || c == '\\' || c == 'b' || c == 'f' || c == 'n' || c == 'r' || c == 't'
        || c == 'v'
}

/// The characters that can begin a punctuator.
pub open spec fn spec_is_operator_start(c: char) -> bool {
    ||| c == '+' || c == '-' || c == '*' || c == '/' || c == '%' || c == '.' || c == ',' || c == ':'
    ||| c == ';' || c == '?' || c == '~' || c == '!' || c == '=' || c == '&' || c == '|' || c == '^'
    ||| c == '<' || c == '>' || c == '(' || c == ')' || c == '{' || c == '}' || c == '[' || c == ']'
    ||| c == '`' || c == '$' || c == '#'
}

impl Token {
    pub fn is_line_break(ch: char) -> (r: bool)
        ensures
            r == spec_is_line_break(ch),
    {
        ch == '\u{000A}' || ch == '\u{000D}' || ch == '\u{2028}' || ch == '\u{2029}'
    }

    /// A CR directly followed by LF forms one line-break sequence.
    pub fn is_multichar_line_break_sequence(ch: char, next_ch: Option<char>) -> (r: bool)
        ensures
            r == spec_is_multichar_line_break(ch, next_ch),
    {
        ch == '\u{000D}' && next_ch == Some('\u{000A}')
    }

    pub fn is_string_start(ch: char) -> (r: StringKind)
        ensures
            r == spec_string_kind(ch),
    {
        if ch == '"' {
            StringKind::DoubleQuote
        } else if ch == '\'' {
            StringKind::SingleQuote
        } else if ch == '`' {
            StringKind::TemplateString
        } else {
            StringKind::NoString
        }
    }

    /// A numeric literal begins with a decimal digit, or with `.` directly
    /// followed by a decimal digit.
    pub fn is_number_start(ch: char, next_ch: Option<char>) -> (r: bool)
        ensures
            r == spec_is_number_start(ch, next_ch),
    {
        if '0' <= ch && ch <= '9' {
            true
        } else if ch == '.' {
            match next_ch {
                Some(d) => '0' <= d && d <= '9',
                None => false,
            }
        } else {
            false
        }
    }

    pub fn is_number(ch: char) -> (r: bool)
        ensures
            r == spec_is_number_char(ch),
    {
        ('0' <= ch && ch <= '9') || ch == '.' || ch == 'e' || ch == 'E'
    }

    pub fn is_white_space(ch: char) -> (r: bool)
        ensures
            r == spec_is_white_space(ch),
    {
        ch == '\u{0009}' || ch == '\u{000B}' || ch == '\u{000C}' || ch == '\u{FEFF}'
            || check_space_separator(ch)
    }

    pub fn is_comment_start(ch: char, next_char: Option<char>) -> (r: CommentKind)
        ensures
            r == spec_comment_start(ch, next_char),
    {
        if ch == '/' && next_char == Some('/') {
            CommentKind::SingleLine
        } else if ch == '/' && next_char == Some('*') {
            CommentKind::MultiLine
        } else {
            CommentKind::NoComment
        }
    }

    pub fn is_hashbang(ch: char, next_char: Option<char>) -> (r: bool)
        ensures
            r == spec_is_hashbang(ch, next_char),
    {
        ch == '#' && next_char == Some('!')
    }

    pub fn is_comment_end(ch: char, next_char: Option<char>) -> (r: CommentKind)
        ensures
            r == spec_comment_end(ch, next_char),
    {
        if ch == '*' && next_char == Some('/') {
            CommentKind::MultiLine
        } else if Token::is_line_break(ch) {
            CommentKind::SingleLine
        } else {
            CommentKind::NoComment
        }
    }

    pub fn is_valid_identifier_start(ch: char) -> (r: bool)
        ensures
            r == spec_is_identifier_start(ch),
    {
        check_xid_start(ch) || ch == '$' || ch == '_'
    }

    pub fn is_valid_identifier_continue(ch: char) -> (r: bool)
        ensures
            r == spec_is_identifier_continue(ch),
    {
        check_xid_continue(ch) || ch == '$'
    }

    pub fn is_single_escape_char(ch: char) -> (r: bool)
        ensures
            r == spec_is_single_escape_char(ch),
    {
        ch == '\'' || ch == '"' || ch == '\\' || ch == 'b' || ch == 'f' || ch == 'n' || ch == 'r'
            || ch == 't' || ch == 'v'
    }

    pub fn is_keyword(buffer: &String) -> (r: bool)
        ensures
            r == (spec_keyword(buffer@) is Some),
    {
        KeywordEnum::from_str(buffer.as_str()).is_some()
    }

    pub fn get_keyword(buffer: &String) -> (r: Option<KeywordEnum>)
        ensures
            r == spec_keyword(buffer@),
    {
        KeywordEnum::from_str(buffer.as_str())
    }

    pub fn is_operator_start(ch: char) -> (r: bool)
        ensures
            r == spec_is_operator_start(ch),
    {
        ch == '+' || ch == '-' || ch == '*' || ch == '/' || ch == '%' || ch == '.' || ch == ','
            || ch == ':' || ch == ';' || ch == '?' || ch == '~' || ch == '!' || ch == '=' || ch
            == '&' || ch == '|' || ch == '^' || ch == '<' || ch == '>' || ch == '(' || ch == ')'
            || ch == '{' || ch == '}' || ch == '[' || ch == ']' || ch == '`' || ch == '$' || ch
            == '#'
    }

    pub fn is_operator(buffer: &String) -> (r: bool)
        ensures
            r == (spec_operator(buffer@) is Some),
    {
        OperatorEnum::from_str(buffer.as_str()).is_some()
    }

    pub fn get_operator(buffer: &String) -> (r: Option<OperatorEnum>)
        ensures
            r == spec_operator(buffer@),
    {
        OperatorEnum::from_str(buffer.as_str())
    }
}

// --- Well-formedness of emitted tokens ----------------------------------

/// Byte of the numeric-literal separator `_`.
pub open spec fn is_separator_byte(b: u8) -> bool {
    b == 95
}

pub open spec fn is_decimal_digit_byte(b: u8) -> bool {
    48 <= b <= 57
}

pub open spec fn is_binary_digit_byte(b: u8) -> bool {
    b == 48 || b == 49
}

pub open spec fn is_octal_digit_byte(b: u8) -> bool {
    48 <= b <= 55
}

pub open spec fn is_hex_digit_byte(b: u8) -> bool {
    is_decimal_digit_byte(b) || (97 <= b <= 102) || (65 <= b <= 70)
}

/// The bytes a canonical decimal literal may hold: digits, the decimal
/// point, an exponent indicator and an exponent sign.
pub open spec fn is_decimal_canonical_byte(b: u8) -> bool {
    is_decimal_digit_byte(b) || b == 46 || b == 101 || b == 69 || b == 43 || b == 45
}

/// Whether `b` is a digit byte of the given base.
pub open spec fn is_base_digit_byte(base: NumericBase, b: u8) -> bool {
    match base {
        NumericBase::Decimal => is_decimal_digit_byte(b),
        NumericBase::Hex => is_hex_digit_byte(b),
        NumericBase::Binary => is_binary_digit_byte(b),
        NumericBase::Octal => is_octal_digit_byte(b),
    }
}

/// Whether `b` may stand in the canonical text of a literal of the base:
/// a digit of the base, and for a decimal literal also the fraction point,
/// an exponent indicator and an exponent sign.
pub open spec fn spec_canonical_byte(base: NumericBase, b: u8) -> bool {
    match base {
        NumericBase::Decimal => is_decimal_canonical_byte(b),
        _ => is_base_digit_byte(base, b),
    }
}

/// The canonical-byte test of the base, as a predicate for filtering.
pub open spec fn canonical_pred(base: NumericBase) -> spec_fn(u8) -> bool {
    |b: u8| spec_canonical_byte(base, b)
}

/// Whether `b` may stand in the body of a literal of the base: a canonical
/// byte or the separator `_`.
pub open spec fn spec_body_byte(base: NumericBase, b: u8) -> bool {
    spec_canonical_byte(base, b) || b == 95
}

/// The canonical digit text determined by a numeric lexeme: the lexeme
/// without its base prefix, separators and BigInt suffix, with a leading `0`
/// supplied before a bare fraction point.
pub open spec fn spec_canonical_of(lexeme: Seq<u8>, base: NumericBase, legacy_octal: bool) -> Seq<
    u8,
> {
    match base {
        NumericBase::Decimal => if lexeme.len() > 0 && lexeme[0] == 46 {
            seq![48u8] + lexeme.filter(canonical_pred(base))
        } else {
            lexeme.filter(canonical_pred(base))
        },
        _ => {
            let body = if legacy_octal {
                lexeme.subrange(1, lexeme.len() as int)
            } else {
                lexeme.subrange(2, lexeme.len() as int)
            };
            body.filter(canonical_pred(base))
        },
    }
}

/// Structure of a numeric-literal token: the lexeme carries the base prefix
/// demanded by `base`, `canonical` is exactly the lexeme's digit text
/// (prefix, separators and BigInt suffix removed; a `0` supplied before a
/// bare fraction point) and is nonempty, a BigInt literal ends in `n` and
/// its canonical text is pure digits, and only decimal literals carry an
/// exponent.
pub open spec fn numeric_kind_wf(
    raw: Seq<u8>,
    canonical: Seq<u8>,
    base: NumericBase,
    legacy_octal: bool,
    is_bigint: bool,
    has_exponent: bool,
    lexeme: Seq<u8>,
) -> bool {
    &&& raw == lexeme
    &&& canonical == spec_canonical_of(lexeme, base, legacy_octal)
    &&& canonical.len() > 0
    &&& (match base {
        NumericBase::Decimal => forall|i: int|
            0 <= i < canonical.len() ==> is_decimal_canonical_byte(#[trigger] canonical[i]),
        _ => forall|i: int|
            0 <= i < canonical.len() ==> is_base_digit_byte(base, #[trigger] canonical[i]),
    })
    &&& (base != NumericBase::Decimal ==> !has_exponent)
    &&& (is_bigint ==> !has_exponent)
    &&& (is_bigint ==> forall|i: int|
        0 <= i < canonical.len() ==> is_base_digit_byte(base, #[trigger] canonical[i]))
    &&& (is_bigint <==> lexeme.len() > 0 && lexeme.last() == 110)
    &&& (match base {
        NumericBase::Decimal => forall|k: int|
            0 <= k < lexeme.len() ==> spec_body_byte(base, #[trigger] lexeme[k]) || (k
                == lexeme.len() - 1 && lexeme[k] == 110),
        _ => forall|k: int|
            (if legacy_octal {
                1int
            } else {
                2int
            }) <= k < lexeme.len() ==> spec_body_byte(base, #[trigger] lexeme[k]) || (k
                == lexeme.len() - 1 && lexeme[k] == 110),
    })
    &&& (base == NumericBase::Decimal ==> (has_exponent <==> exists|k: int|
        0 <= k < lexeme.len() && ((#[trigger] lexeme[k]) == 101 || lexeme[k] == 69)))
    &&& (legacy_octal ==> base == NumericBase::Octal)
    &&& (match base {
        NumericBase::Hex => lexeme.len() >= 2 && lexeme[0] == 48 && (lexeme[1] == 120 || lexeme[1]
            == 88),
        NumericBase::Binary => lexeme.len() >= 2 && lexeme[0] == 48 && (lexeme[1] == 98 || lexeme[1]
            == 66),
        NumericBase::Octal => lexeme.len() >= 2 && lexeme[0] == 48 && (if legacy_octal {
            is_octal_digit_byte(lexeme[1])
        } else {
            lexeme[1] == 111 || lexeme[1] == 79
        }),
        NumericBase::Decimal => lexeme.len() > 0,
    })
}

/// Structure of the escape records of a string literal: each record's raw
/// bytes sit verbatim at its position inside the literal's `raw` interior
/// and begin with a backslash, the records come in order without overlap,
/// and every backslash of `raw` lies inside one of the records.  The records
/// are therefore exactly the backslash-initiated sequences of `raw`.
pub open spec fn escapes_wf(raw: Seq<u8>, escapes: Seq<EscapeInfo>) -> bool {
    &&& forall|i: int|
        0 <= i < escapes.len() ==> {
            let e = #[trigger] escapes[i];
            &&& e.raw@.len() >= 2
            &&& e.position_in_raw + e.raw@.len() <= raw.len()
            &&& e.raw@ == raw.subrange(
                e.position_in_raw as int,
                e.position_in_raw + e.raw@.len(),
            )
            &&& e.raw@[0] == 92
        }
    &&& forall|i: int, j: int|
        0 <= i < j < escapes.len() ==> (#[trigger] escapes[i]).position_in_raw
            + escapes[i].raw@.len() <= (#[trigger] escapes[j]).position_in_raw
    &&& forall|k: int|
        0 <= k < raw.len() && raw[k] == 92 ==> exists|i: int|
            0 <= i < escapes.len() && (#[trigger] escapes[i]).position_in_raw <= k
                < escapes[i].position_in_raw + escapes[i].raw@.len()
}

/// The plain segments of a string literal's interior are valid UTF-8: the
/// bytes before each escape's span (recursively) and the bytes after the
/// last one.
pub open spec fn interior_valid(raw: Seq<u8>, escapes: Seq<EscapeInfo>) -> bool
    decreases escapes.len(),
{
    if escapes.len() == 0 {
        valid_utf8(raw)
    } else {
        let e = escapes.last();
        let cut = e.position_in_raw + e.raw@.len();
        &&& cut <= raw.len()
        &&& interior_valid(raw.subrange(0, e.position_in_raw as int), escapes.drop_last())
        &&& valid_utf8(raw.subrange(cut, raw.len() as int))
    }
}

/// The decoded text of a string literal's interior: the plain segments
/// decoded as UTF-8, with each escape's span replaced by its resolved code
/// point.
pub open spec fn interior_value(raw: Seq<u8>, escapes: Seq<EscapeInfo>) -> Seq<char>
    recommends
        interior_valid(raw, escapes),
    decreases escapes.len(),
{
    if escapes.len() == 0 {
        decode_utf8(raw)
    } else {
        let e = escapes.last();
        let cut = e.position_in_raw + e.raw@.len();
        interior_value(raw.subrange(0, e.position_in_raw as int), escapes.drop_last()) + seq![
            e.resolved_char,
        ] + decode_utf8(raw.subrange(cut, raw.len() as int))
    }
}

/// Extending the interior with plain valid bytes appends their decoding to
/// the decoded text.
pub proof fn lemma_interior_extend_plain(raw: Seq<u8>, escapes: Seq<EscapeInfo>, piece: Seq<u8>)
    requires
        escapes_wf(raw, escapes),
        interior_valid(raw, escapes),
        valid_utf8(piece),
    ensures
        interior_valid(raw + piece, escapes),
        interior_value(raw + piece, escapes) == interior_value(raw, escapes) + decode_utf8(piece),
{
    let raw2 = raw + piece;
    if escapes.len() == 0 {
        crate::utf8_cursor::lemma_decode_utf8_concat(raw, piece);
    } else {
        let e = escapes.last();
        assert(escapes[escapes.len() - 1] == e);
        let cut = e.position_in_raw + e.raw@.len();
        assert(cut <= raw.len());
        let tail = raw.subrange(cut, raw.len() as int);
        assert(raw2.subrange(0, e.position_in_raw as int) =~= raw.subrange(
            0,
            e.position_in_raw as int,
        ));
        assert(raw2.subrange(cut, raw2.len() as int) =~= tail + piece);
        crate::utf8_cursor::lemma_decode_utf8_concat(tail, piece);
        let pre = interior_value(raw.subrange(0, e.position_in_raw as int), escapes.drop_last());
        assert(pre + seq![e.resolved_char] + (decode_utf8(tail) + decode_utf8(piece)) =~= (pre
            + seq![e.resolved_char] + decode_utf8(tail)) + decode_utf8(piece));
    }
}

/// Appending one escape record at the interior's end appends its resolved
/// code point to the decoded text.
pub proof fn lemma_interior_push_escape(raw: Seq<u8>, escapes: Seq<EscapeInfo>, e: EscapeInfo)
    requires
        interior_valid(raw, escapes),
        e.position_in_raw == raw.len(),
    ensures
        interior_valid(raw + e.raw@, escapes.push(e)),
        interior_value(raw + e.raw@, escapes.push(e)) == interior_value(raw, escapes) + seq![
            e.resolved_char,
        ],
{
    let raw2 = raw + e.raw@;
    let es2 = escapes.push(e);
    assert(es2.last() == e);
    assert(es2.drop_last() =~= escapes);
    let cut = e.position_in_raw + e.raw@.len();
    assert(cut == raw2.len());
    assert(raw2.subrange(0, e.position_in_raw as int) =~= raw);
    assert(raw2.subrange(cut as int, raw2.len() as int) =~= Seq::<u8>::empty());
    assert(valid_utf8(Seq::<u8>::empty()));
    assert(decode_utf8(Seq::<u8>::empty()) =~= Seq::<char>::empty());
    assert(interior_value(raw, escapes) + seq![e.resolved_char] + Seq::<char>::empty()
        =~= interior_value(raw, escapes) + seq![e.resolved_char]);
}

/// What each token kind guarantees about its lexeme.
#[verifier::opaque]
pub open spec fn kind_wf(kind: TokenKind, lexeme: Seq<u8>) -> bool {
    match kind {
        TokenKind::Identifier(name) => name@.len() > 0 && lexeme == encode_utf8(name@),
        TokenKind::NumericLiteral { raw, canonical, base, legacy_octal, is_bigint, has_exponent } =>
            numeric_kind_wf(
            raw@,
            canonical@,
            base,
            legacy_octal,
            is_bigint,
            has_exponent,
            lexeme,
        ),
        TokenKind::StringLiteral { raw, value, escapes } => escapes_wf(raw@, escapes@)
            && interior_valid(raw@, escapes@) && value@ == interior_value(raw@, escapes@) && (
        lexeme == raw@ || (lexeme.len() >= 2 && (lexeme[0] == 34 || lexeme[0] == 39)
            && lexeme[lexeme.len() - 1] == lexeme[0] && raw@ == lexeme.subrange(
            1,
            lexeme.len() - 1,
        ))),
        TokenKind::TemplateLiteral(_) => false,
        TokenKind::RegexLiteral(_) => false,
        TokenKind::Keyword(kw) => lexeme == encode_utf8(spec_keyword_text(kw)),
        TokenKind::Operator(op) => lexeme == encode_utf8(spec_operator_text(op)),
        TokenKind::TemplateStart => lexeme == seq![96u8],
        TokenKind::TemplateMiddle => false,
        TokenKind::TemplateEnd => lexeme == seq![96u8],
        TokenKind::DollarCurlyOpen => lexeme == seq![36u8, 123u8],
        TokenKind::CommentLine(text) => lexeme == encode_utf8(text@),
        TokenKind::CommentBlock(text) => lexeme == encode_utf8(text@),
        TokenKind::HtmlCommentStart => false,
        TokenKind::HtmlCommentEnd => false,
        TokenKind::Whitespace => valid_utf8(lexeme) && decode_utf8(lexeme).len() > 0 && forall|
            i: int,
        |
            0 <= i < decode_utf8(lexeme).len() ==> spec_is_white_space(
                #[trigger] decode_utf8(lexeme)[i],
            ),
        TokenKind::Newline => valid_utf8(lexeme) && (decode_utf8(lexeme) == seq!['\u{000A}']
            || decode_utf8(lexeme) == seq!['\u{000D}'] || decode_utf8(lexeme) == seq!['\u{2028}']
            || decode_utf8(lexeme) == seq!['\u{2029}'] || decode_utf8(lexeme) == seq![
            '\u{000D}',
            '\u{000A}',
        ]),
        TokenKind::Eof => false,
        TokenKind::Error(_) => false,
    }
}

/// A well-formed token of the given input: a nonempty half-open byte span
/// inside the input, whose lexeme is exactly the bytes of that span, with a
/// kind that is well formed for the lexeme.
pub open spec fn token_wf(t: Token, input: Seq<u8>) -> bool {
    &&& t.start < t.end <= input.len()
    &&& t.lexeme@ == input.subrange(t.start as int, t.end as int)
    &&& kind_wf(t.kind, t.lexeme@)
    &&& ((t.kind matches TokenKind::Newline) && t.lexeme@ == seq![13u8] ==> !(t.end < input.len()
        && input[t.end as int] == 10))
}

/// The tokens tile the byte range `[from, to)` of the input: each one is
/// well formed, the first starts at `from`, each next one starts where the
/// previous ended, and the last ends at `to`.
pub open spec fn tokens_chain(ts: Seq<Token>, input: Seq<u8>, from: int, to: int) -> bool {
    &&& 0 <= from <= to <= input.len()
    &&& (ts.len() == 0 ==> from == to)
    &&& (ts.len() > 0 ==> ts[0].start == from && ts[ts.len() - 1].end == to)
    &&& forall|i: int| 0 <= i < ts.len() ==> token_wf(#[trigger] ts[i], input)
    &&& forall|i: int| 0 <= i < ts.len() - 1 ==> (#[trigger] ts[i]).end == ts[i + 1].start
}

/// The concatenation, in order, of the tokens' lexemes.
pub open spec fn concat_lexemes(ts: Seq<Token>) -> Seq<u8>
    decreases ts.len(),
{
    if ts.len() == 0 {
        Seq::empty()
    } else {
        concat_lexemes(ts.drop_last()) + ts.last().lexeme@
    }
}

/// A well-formed token on its own tiles exactly its span.
pub proof fn lemma_chain_singleton(t: Token, input: Seq<u8>)
    requires
        token_wf(t, input),
    ensures
        tokens_chain(seq![t], input, t.start as int, t.end as int),
{
    let ts = seq![t];
    assert forall|i: int| 0 <= i < ts.len() implies token_wf(#[trigger] ts[i], input) by {
        assert(ts[i] == t);
    }
}

/// Extending a literal's interior with bytes holding no backslash leaves its
/// escape records well formed.
pub proof fn lemma_escapes_wf_extend_plain(
    raw0: Seq<u8>,
    escapes: Seq<EscapeInfo>,
    piece: Seq<u8>,
)
    requires
        escapes_wf(raw0, escapes),
        forall|k: int| 0 <= k < piece.len() ==> #[trigger] piece[k] != 92,
    ensures
        escapes_wf(raw0 + piece, escapes),
{
    let raw = raw0 + piece;
    assert forall|i: int| 0 <= i < escapes.len() implies {
        let e = #[trigger] escapes[i];
        &&& e.raw@.len() >= 2
        &&& e.position_in_raw + e.raw@.len() <= raw.len()
        &&& e.raw@ == raw.subrange(e.position_in_raw as int, e.position_in_raw + e.raw@.len())
        &&& e.raw@[0] == 92
    } by {
        let e = escapes[i];
        assert(e.raw@ == raw0.subrange(e.position_in_raw as int, e.position_in_raw + e.raw@.len()));
        assert(raw.subrange(e.position_in_raw as int, e.position_in_raw + e.raw@.len())
            =~= raw0.subrange(e.position_in_raw as int, e.position_in_raw + e.raw@.len()));
    }
    assert forall|k: int| 0 <= k < raw.len() && raw[k] == 92 implies exists|i: int|
        0 <= i < escapes.len() && (#[trigger] escapes[i]).position_in_raw <= k
            < escapes[i].position_in_raw + escapes[i].raw@.len() by {
        if k < raw0.len() {
            assert(raw0[k] == 92);
        } else {
            assert(piece[k - raw0.len()] != 92);
            assert(false);
        }
    }
}

/// Appending one escape record whose raw bytes extend the interior keeps the
/// records well formed.
pub proof fn lemma_escapes_wf_push(
    raw0: Seq<u8>,
    escapes: Seq<EscapeInfo>,
    e: EscapeInfo,
)
    requires
        escapes_wf(raw0, escapes),
        e.position_in_raw == raw0.len(),
        e.raw@.len() >= 2,
        e.raw@[0] == 92,
    ensures
        escapes_wf(raw0 + e.raw@, escapes.push(e)),
{
    let raw = raw0 + e.raw@;
    let es = escapes.push(e);
    assert forall|i: int| 0 <= i < es.len() implies {
        let x = #[trigger] es[i];
        &&& x.raw@.len() >= 2
        &&& x.position_in_raw + x.raw@.len() <= raw.len()
        &&& x.raw@ == raw.subrange(x.position_in_raw as int, x.position_in_raw + x.raw@.len())
        &&& x.raw@[0] == 92
    } by {
        if i < escapes.len() {
            let x = escapes[i];
            assert(es[i] == x);
            assert(x.raw@ == raw0.subrange(
                x.position_in_raw as int,
                x.position_in_raw + x.raw@.len(),
            ));
            assert(raw.subrange(x.position_in_raw as int, x.position_in_raw + x.raw@.len())
                =~= raw0.subrange(x.position_in_raw as int, x.position_in_raw + x.raw@.len()));
        } else {
            assert(es[i] == e);
            assert(raw.subrange(e.position_in_raw as int, e.position_in_raw + e.raw@.len())
                =~= e.raw@);
        }
    }
    assert forall|i: int, j: int| 0 <= i < j < es.len() implies (#[trigger] es[i]).position_in_raw
        + es[i].raw@.len() <= (#[trigger] es[j]).position_in_raw by {
        if j < escapes.len() {
            assert(es[i] == escapes[i] && es[j] == escapes[j]);
        } else {
            assert(es[j] == e && es[i] == escapes[i]);
        }
    }
    assert forall|k: int| 0 <= k < raw.len() && raw[k] == 92 implies exists|i: int|
        0 <= i < es.len() && (#[trigger] es[i]).position_in_raw <= k < es[i].position_in_raw
            + es[i].raw@.len() by {
        if k < raw0.len() {
            assert(raw0[k] == 92);
            let i = choose|i: int|
                0 <= i < escapes.len() && (#[trigger] escapes[i]).position_in_raw <= k
                    < escapes[i].position_in_raw + escapes[i].raw@.len();
            assert(es[i] == escapes[i]);
            assert(0 <= i < es.len() && es[i].position_in_raw <= k < es[i].position_in_raw
                + es[i].raw@.len());
        } else {
            let i = es.len() - 1;
            assert(es[i] == e);
            assert(es[i].position_in_raw <= k < es[i].position_in_raw + es[i].raw@.len());
        }
    }
}

/// Appending a well-formed token that starts where a chain ends extends the
/// chain.
pub proof fn lemma_chain_push(ts: Seq<Token>, input: Seq<u8>, from: int, to: int, t: Token)
    requires
        tokens_chain(ts, input, from, to),
        token_wf(t, input),
        t.start == to,
    ensures
        tokens_chain(ts.push(t), input, from, t.end as int),
{
    let ts2 = ts.push(t);
    assert forall|i: int| 0 <= i < ts2.len() implies token_wf(#[trigger] ts2[i], input) by {
        if i < ts.len() {
            assert(ts2[i] == ts[i]);
        } else {
            assert(ts2[i] == t);
        }
    }
    assert forall|i: int| 0 <= i < ts2.len() - 1 implies (#[trigger] ts2[i]).end == ts2[i
        + 1].start by {
        if i < ts.len() - 1 {
            assert(ts2[i] == ts[i] && ts2[i + 1] == ts[i + 1]);
        } else {
            assert(ts2[i] == ts[ts.len() - 1] && ts2[i + 1] == t);
        }
    }
}

/// Two chains that meet at `mid` concatenate to one chain.
pub proof fn lemma_chain_concat(
    a: Seq<Token>,
    b: Seq<Token>,
    input: Seq<u8>,
    from: int,
    mid: int,
    to: int,
)
    requires
        tokens_chain(a, input, from, mid),
        tokens_chain(b, input, mid, to),
    ensures
        tokens_chain(a + b, input, from, to),
{
    let c = a + b;
    assert forall|i: int| 0 <= i < c.len() implies token_wf(#[trigger] c[i], input) by {
        if i < a.len() {
            assert(c[i] == a[i]);
        } else {
            assert(c[i] == b[i - a.len()]);
        }
    }
    assert forall|i: int| 0 <= i < c.len() - 1 implies (#[trigger] c[i]).end == c[i + 1].start by {
        if i < a.len() - 1 {
            assert(c[i] == a[i] && c[i + 1] == a[i + 1]);
        } else if i == a.len() - 1 {
            assert(a.len() > 0 && b.len() > 0);
            assert(c[i] == a[a.len() - 1] && c[i + 1] == b[0]);
        } else {
            assert(c[i] == b[i - a.len()] && c[i + 1] == b[i + 1 - a.len()]);
        }
    }
    if a.len() == 0 && b.len() > 0 {
        assert(c =~= b);
    }
    if b.len() == 0 && a.len() > 0 {
        assert(c =~= a);
    }
}

} // verus!
