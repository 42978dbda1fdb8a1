//! The string sub-lexer and the escape-sequence decoder.

use vstd::prelude::*;
use crate::lexer_base::Lexer;
use crate::lexer_base::scan_ok;
use crate::lexer_base::same_but_counters;
use crate::lexer_errors::LexerError;
use crate::lexer_errors::LexerErrorKind;
use crate::lexer_errors::Span;
use crate::number_literal::NumberLiteral;
use crate::number_literal::spec_is_hex_digit;
use crate::number_literal::spec_is_octal_digit;
use crate::text::push_char;
use crate::tokens::EscapeInfo;
use crate::tokens::EscapeKind;
use crate::tokens::Token;
use crate::tokens::TokenKind;
use crate::tokens::escapes_wf;
use crate::tokens::is_hex_digit_byte;
use crate::tokens::is_octal_digit_byte;
use crate::tokens::spec_is_line_break;
use crate::tokens::spec_is_single_escape_char;
use crate::tokens::token_wf;
use crate::tokens::tokens_chain;
use crate::utf8_cursor::Utf8Cursor;
use crate::utf8_cursor::decode_ok;
use crate::utf8_cursor::decoded_char;
use crate::utf8_cursor::decoded_len;
use crate::utf8_cursor::lemma_ascii_decode;
use vstd::utf8::is_scalar;

verus! {

/// Which escape families the caller permits.
#[derive(Debug, Clone, Copy, PartialEq, Eq, Structural)]
pub enum EscapeSequenceKind {
    Hex,
    Unicode,
    All,
    Octal,
    Simple,
}

/// One decoded escape sequence: its family, the resolved code point, the
/// byte span it covers, and its raw bytes.
pub struct EscapeSequenceResult {
    pub kind: EscapeKind,
    pub character: char,
    pub start: usize,
    pub end: usize,
    pub raw: Vec<u8>,
}

/// Whether the permitted-family selector admits the decoded family.
pub open spec fn kind_allows(param: EscapeSequenceKind, k: EscapeKind) -> bool {
    match param {
        EscapeSequenceKind::All => true,
        EscapeSequenceKind::Hex => k == EscapeKind::Hex,
        EscapeSequenceKind::Unicode => k == EscapeKind::Unicode,
        EscapeSequenceKind::Octal => k == EscapeKind::Octal,
        EscapeSequenceKind::Simple => k == EscapeKind::Simple,
    }
}

/// The numeric value of an ASCII digit byte (hex letters included).
pub open spec fn byte_digit_val(b: u8) -> int {
    if 48 <= b <= 57 {
        b - 48
    } else if 97 <= b <= 102 {
        b - 87
    } else if 65 <= b <= 70 {
        b - 55
    } else {
        0
    }
}

/// The value of a digit-byte string read in the given radix.
pub open spec fn escape_digits_value(digits: Seq<u8>, radix: int) -> int
    decreases digits.len(),
{
    if digits.len() == 0 {
        0
    } else {
        escape_digits_value(digits.drop_last(), radix) * radix + byte_digit_val(digits.last())
    }
}

/// The bytes that may follow a backslash as a one-character escape.
pub open spec fn is_single_escape_byte(b: u8) -> bool {
    b == 39 || b == 34 || b == 92 || b == 98 || b == 102 || b == 110 || b == 114 || b == 116 || b
        == 118
}

/// The code point a one-character escape resolves to.
pub open spec fn spec_simple_escape(b: u8) -> char {
    if b == 39 {
        '\''
    } else if b == 34 {
        '"'
    } else if b == 92 {
        '\\'
    } else if b == 98 {
        '\u{0008}'
    } else if b == 102 {
        '\u{000C}'
    } else if b == 110 {
        '\u{000A}'
    } else if b == 114 {
        '\u{000D}'
    } else if b == 116 {
        '\u{0009}'
    } else if b == 118 {
        '\u{000B}'
    } else {
        '\u{0000}'
    }
}

/// The shape of a decoded escape: its raw bytes and how the resolved code
/// point is computed from them.
pub open spec fn escape_payload_wf(k: EscapeKind, raw: Seq<u8>, c: char) -> bool {
    match k {
        EscapeKind::Hex => {
            &&& raw.len() == 4
            &&& raw[0] == 92 && raw[1] == 120
            &&& is_hex_digit_byte(raw[2]) && is_hex_digit_byte(raw[3])
            &&& c as u32 == escape_digits_value(raw.subrange(2, 4), 16)
        },
        EscapeKind::Unicode => {
            ||| {
                &&& raw.len() == 6
                &&& raw[0] == 92 && raw[1] == 117
                &&& (forall|i: int| 2 <= i < 6 ==> is_hex_digit_byte(#[trigger] raw[i]))
                &&& c as u32 == escape_digits_value(raw.subrange(2, 6), 16)
            }
            ||| {
                &&& 5 <= raw.len() <= 10
                &&& raw[0] == 92 && raw[1] == 117 && raw[2] == 123 && raw.last() == 125
                &&& (forall|i: int| 3 <= i < raw.len() - 1 ==> is_hex_digit_byte(#[trigger] raw[i]))
                &&& c as u32 == escape_digits_value(raw.subrange(3, raw.len() - 1), 16)
            }
        },
        EscapeKind::Octal => {
            &&& 2 <= raw.len() <= 4
            &&& raw[0] == 92
            &&& (forall|i: int| 1 <= i < raw.len() ==> is_octal_digit_byte(#[trigger] raw[i]))
            &&& escape_digits_value(raw.subrange(1, raw.len() as int), 8) <= 255
            &&& c as u32 == escape_digits_value(raw.subrange(1, raw.len() as int), 8)
        },
        EscapeKind::Simple => {
            &&& raw.len() == 2
            &&& raw[0] == 92
            &&& is_single_escape_byte(raw[1])
            &&& c == spec_simple_escape(raw[1])
        },
    }
}

/// Whether `n` hex digits stand in sequence at `pos`.
pub open spec fn hex_digits_at(input: Seq<u8>, pos: int, n: nat) -> bool
    decreases n,
{
    if n == 0 {
        true
    } else {
        &&& decode_ok(input, pos)
        &&& spec_is_hex_digit(decoded_char(input, pos))
        &&& hex_digits_at(input, pos + decoded_len(input, pos), (n - 1) as nat)
    }
}

/// The value of `n` hex digits at `pos`, folded onto the accumulator.
pub open spec fn hex_digits_value(input: Seq<u8>, pos: int, n: nat, acc: int) -> int
    decreases n,
{
    if n == 0 {
        acc
    } else if decode_ok(input, pos) {
        hex_digits_value(
            input,
            pos + decoded_len(input, pos),
            (n - 1) as nat,
            acc * 16 + byte_digit_val(decoded_char(input, pos) as u8),
        )
    } else {
        acc
    }
}

/// Whether the body of a braced Unicode escape scans from `pos`, with
/// `count` digits and the value `value` already read: at most six hex
/// digits, a value no greater than 0x10FFFF and not a surrogate, closed by
/// `}` after at least one digit.
pub open spec fn brace_scan_ok(input: Seq<u8>, pos: int, count: nat, value: int) -> bool
    decreases input.len() - pos,
    when 0 <= pos <= input.len()
{
    if !decode_ok(input, pos) {
        false
    } else {
        let c = decoded_char(input, pos);
        let w = decoded_len(input, pos);
        if c == '}' {
            count > 0 && !(0xD800 <= value <= 0xDFFF)
        } else if spec_is_hex_digit(c) && count < 6 {
            &&& value * 16 + byte_digit_val(c as u8) <= 0x10FFFF
            &&& brace_scan_ok(input, pos + w, count + 1, value * 16 + byte_digit_val(c as u8))
        } else {
            false
        }
    }
}

/// Whether a legacy octal escape body scans from `pos`, with `count` digits
/// and the value `value` already read: the greedy run of at most three
/// octal digits reads a value no greater than 0o377.
pub open spec fn octal_escape_scan(input: Seq<u8>, pos: int, count: nat, value: int) -> bool
    decreases 3 - count,
    when count <= 3
{
    if count == 3 || !(decode_ok(input, pos) && spec_is_octal_digit(decoded_char(input, pos))) {
        value <= 255
    } else {
        octal_escape_scan(
            input,
            pos + decoded_len(input, pos),
            count + 1,
            value * 8 + byte_digit_val(decoded_char(input, pos) as u8),
        )
    }
}

/// The position just past `n` decoded sequences from `pos` (stopping early
/// where decoding fails).
pub open spec fn skip_decoded(input: Seq<u8>, pos: int, n: nat) -> int
    decreases n,
{
    if n == 0 {
        pos
    } else if decode_ok(input, pos) {
        skip_decoded(input, pos + decoded_len(input, pos), (n - 1) as nat)
    } else {
        pos
    }
}

/// The position just past a braced Unicode escape body scanned from `pos`.
pub open spec fn brace_scan_end(input: Seq<u8>, pos: int, count: nat, value: int) -> int
    decreases input.len() - pos,
    when 0 <= pos <= input.len()
{
    if !decode_ok(input, pos) {
        pos
    } else {
        let c = decoded_char(input, pos);
        let w = decoded_len(input, pos);
        if c == '}' {
            pos + w
        } else if spec_is_hex_digit(c) && count < 6 {
            brace_scan_end(input, pos + w, count + 1, value * 16 + byte_digit_val(c as u8))
        } else {
            pos
        }
    }
}

/// The position just past a legacy octal escape body scanned from `pos`.
pub open spec fn octal_scan_end(input: Seq<u8>, pos: int, count: nat) -> int
    decreases 3 - count,
    when count <= 3
{
    if count == 3 || !(decode_ok(input, pos) && spec_is_octal_digit(decoded_char(input, pos))) {
        pos
    } else {
        octal_scan_end(input, pos + decoded_len(input, pos), count + 1)
    }
}

/// The position just past the escape that begins at `pos` (meaningful when
/// `escape_scan_ok` holds there).
pub open spec fn escape_scan_end(input: Seq<u8>, pos: int, kind: EscapeSequenceKind) -> int
    recommends
        escape_scan_ok(input, pos, kind),
{
    if !decode_ok(input, pos) {
        pos
    } else {
        let p1 = pos + decoded_len(input, pos);
        if !decode_ok(input, p1) {
            p1
        } else {
            let c1 = decoded_char(input, p1);
            let p2 = p1 + decoded_len(input, p1);
            if c1 == 'x' {
                skip_decoded(input, p2, 2)
            } else if c1 == 'u' {
                if decode_ok(input, p2) && decoded_char(input, p2) == '{' {
                    brace_scan_end(input, p2 + decoded_len(input, p2), 0, 0)
                } else {
                    skip_decoded(input, p2, 4)
                }
            } else if spec_is_octal_digit(c1) {
                octal_scan_end(input, p1, 0)
            } else {
                p2
            }
        }
    }
}

/// Whether a well-formed escape of a family that `kind` permits begins at
/// `pos` (which holds the backslash): the grammar of hex, fixed and braced
/// Unicode, legacy octal and one-character escapes.
pub open spec fn escape_scan_ok(input: Seq<u8>, pos: int, kind: EscapeSequenceKind) -> bool {
    &&& decode_ok(input, pos)
    &&& decoded_char(input, pos) == '\\'
    &&& {
        let p1 = pos + decoded_len(input, pos);
        &&& decode_ok(input, p1)
        &&& {
            let c1 = decoded_char(input, p1);
            let p2 = p1 + decoded_len(input, p1);
            if c1 == 'x' {
                &&& (kind == EscapeSequenceKind::Hex || kind == EscapeSequenceKind::All)
                &&& hex_digits_at(input, p2, 2)
            } else if c1 == 'u' {
                &&& (kind == EscapeSequenceKind::Unicode || kind == EscapeSequenceKind::All)
                &&& (if decode_ok(input, p2) && decoded_char(input, p2) == '{' {
                    brace_scan_ok(input, p2 + decoded_len(input, p2), 0, 0)
                } else {
                    &&& hex_digits_at(input, p2, 4)
                    &&& !(0xD800 <= hex_digits_value(input, p2, 4, 0) <= 0xDFFF)
                })
            } else if spec_is_octal_digit(c1) {
                &&& (kind == EscapeSequenceKind::Octal || kind == EscapeSequenceKind::All)
                &&& octal_escape_scan(input, p1, 0, 0)
            } else if spec_is_single_escape_char(c1) {
                kind == EscapeSequenceKind::Simple || kind == EscapeSequenceKind::All
            } else {
                false
            }
        }
    }
}

/// Whether the interior of a quoted string scans from `pos` to an unescaped
/// closing delimiter: plain characters with no unescaped line terminator,
/// well-formed escapes of every family (a legacy octal escape refused in
/// strict mode), ending at the delimiter.
pub open spec fn quoted_scan_ok(input: Seq<u8>, pos: int, delim: char, strict: bool) -> bool
    decreases input.len() - pos,
    when 0 <= pos <= input.len()
{
    if !decode_ok(input, pos) {
        false
    } else {
        let c = decoded_char(input, pos);
        let w = decoded_len(input, pos);
        if c == delim {
            true
        } else if spec_is_line_break(c) {
            false
        } else if c == '\\' {
            &&& escape_scan_ok(input, pos, EscapeSequenceKind::All)
            &&& !(strict && decode_ok(input, pos + w) && spec_is_octal_digit(
                decoded_char(input, pos + w),
            ))
            &&& {
                let e = escape_scan_end(input, pos, EscapeSequenceKind::All);
                let nxt: int = if pos < e <= input.len() {
                    e
                } else {
                    pos + w
                };
                quoted_scan_ok(input, nxt, delim, strict)
            }
        } else {
            quoted_scan_ok(input, pos + w, delim, strict)
        }
    }
}

/// Consumes one ASCII character and appends its byte to `out`; the escape
/// decoder's counterpart of the scanner's byte-taking helper.
fn esc_take(reader: &mut Utf8Cursor, out: &mut Vec<u8>) -> (c: char)
    requires
        old(reader).wf(),
        decode_ok(old(reader).input@, old(reader).pos as int),
        (decoded_char(old(reader).input@, old(reader).pos as int) as u32) < 0x80,
    ensures
        final(reader).wf(),
        final(reader).input == old(reader).input,
        c == decoded_char(old(reader).input@, old(reader).pos as int),
        (c as u32) < 0x80,
        old(reader).input@[old(reader).pos as int] == c as u8,
        final(out)@ == old(out)@.push(c as u8),
        final(reader).pos == old(reader).pos + 1,
{
    proof {
        lemma_ascii_decode(reader.input@, reader.pos as int);
    }
    let c = reader.advance().unwrap();
    let b = #[verifier::truncate] (c as u8);
    proof {
        assert(b as u32 == c as u32);
    }
    out.push(b);
    c
}

/// The numeric value of one hex digit character.
pub(crate) fn hex_digit_value(c: char) -> (v: u32)
    requires
        spec_is_hex_digit(c),
    ensures
        v == byte_digit_val(c as u8),
        v < 16,
        (c as u32) < 0x80,
{
    let u = c as u32;
    if u >= 97 {
        u - 87
    } else if u >= 65 {
        u - 55
    } else {
        u - 48
    }
}

/// The numeric value of one octal digit character.
fn octal_digit_value(c: char) -> (v: u32)
    requires
        spec_is_octal_digit(c),
    ensures
        v == byte_digit_val(c as u8),
        v < 8,
        (c as u32) < 0x80,
{
    c as u32 - 48
}

impl Lexer {
    /// Whether a backslash begins a hex or Unicode escape at the cursor.
    pub fn is_escape_sequence(ch: char, reader: &mut Utf8Cursor) -> (r: bool)
        ensures
            *final(reader) == *old(reader),
            r == (ch == '\\' && (decode_ok(old(reader).input@, old(reader).pos as int) && {
                let c = decoded_char(old(reader).input@, old(reader).pos as int);
                c == 'u' || c == 'x'
            })),
    {
        match reader.peek() {
            Some(c) => ch == '\\' && (c == 'u' || c == 'x'),
            None => false,
        }
    }

    /// Decodes one escape sequence; the cursor must stand on the backslash.
    /// `kind` selects which escape families are permitted.
    pub fn read_escape_sequence(reader: &mut Utf8Cursor, kind: EscapeSequenceKind) -> (r: Result<
        EscapeSequenceResult,
        LexerError,
    >)
        requires
            old(reader).wf(),
            decode_ok(old(reader).input@, old(reader).pos as int),
            decoded_char(old(reader).input@, old(reader).pos as int) == '\\',
        ensures
            final(reader).wf(),
            final(reader).input == old(reader).input,
            old(reader).pos <= final(reader).pos,
            (r matches Ok(e) ==> {
                &&& e.start == old(reader).pos
                &&& e.end == final(reader).pos
                &&& old(reader).pos < final(reader).pos
                &&& e.raw@ == old(reader).input@.subrange(e.start as int, e.end as int)
                &&& kind_allows(kind, e.kind)
                &&& escape_payload_wf(e.kind, e.raw@, e.character)
            }),
            (r matches Err(err) ==> err.span.start <= final(reader).pos <= err.span.end
                && err.span.end <= final(reader).input@.len()),
            (r matches Err(err) ==> err.kind matches LexerErrorKind::InvalidEscapeSequence),
            (r is Ok <==> escape_scan_ok(old(reader).input@, old(reader).pos as int, kind)),
            (r is Ok ==> final(reader).pos == escape_scan_end(
                old(reader).input@,
                old(reader).pos as int,
                kind,
            )),
    {
        let ghost input = reader.input@;
        let ghost pos0 = reader.pos as int;
        let start = reader.pos();
        let mut raw: Vec<u8> = Vec::new();
        let c0 = esc_take(reader, &mut raw);
        proof {
            assert(raw@ =~= input.subrange(pos0, reader.pos as int));
            lemma_ascii_decode(input, pos0);
            assert(reader.pos == pos0 + decoded_len(input, pos0));
        }
        let ghost p1 = pos0 + 1;
        let next = match reader.peek() {
            Some(c) => c,
            None => {
                proof {
                    assert(!escape_scan_ok(input, pos0, kind));
                }
                return Err(
                    LexerError {
                        kind: LexerErrorKind::InvalidEscapeSequence,
                        span: Span { start, end: reader.pos() },
                    },
                );
            },
        };
        proof {
            lemma_ascii_decode(input, p1);
        }
        if next == 'x' && (kind == EscapeSequenceKind::Hex || kind == EscapeSequenceKind::All) {
            let _cx = esc_take(reader, &mut raw);
            proof {
                assert(raw@ =~= input.subrange(pos0, reader.pos as int));
                assert(escape_scan_ok(input, pos0, kind) == hex_digits_at(
                    input,
                    reader.pos as int,
                    2,
                ));
            }
            let mut value: u32 = 0;
            let ghost digits = Seq::<u8>::empty();
            let mut count: usize = 0;
            while count < 2
                invariant
                    reader.wf(),
                    reader.input == old(reader).input,
                    input == reader.input@,
                    pos0 == old(reader).pos,
                    start == old(reader).pos,
                    kind == EscapeSequenceKind::Hex || kind == EscapeSequenceKind::All,
                    escape_scan_ok(input, pos0, kind) == hex_digits_at(
                        input,
                        reader.pos as int,
                        (2 - count) as nat,
                    ),
                    escape_scan_end(input, pos0, kind) == skip_decoded(
                        input,
                        reader.pos as int,
                        (2 - count) as nat,
                    ),
                    pos0 + 2 <= reader.pos,
                    count <= 2,
                    raw@ == input.subrange(pos0, reader.pos as int),
                    raw@.len() == 4 + count - 2,
                    raw@[0] == 92 && raw@[1] == 120,
                    digits == raw@.subrange(2, raw@.len() as int),
                    forall|i: int| 0 <= i < digits.len() ==> is_hex_digit_byte(#[trigger] digits[i]),
                    digits.len() == count,
                    value == escape_digits_value(digits, 16),
                    count == 0 ==> value == 0,
                    count == 1 ==> value < 16,
                    count == 2 ==> value < 256,
                decreases 2 - count,
            {
                let d = match reader.peek() {
                    Some(d) => d,
                    None => {
                        proof {
                            assert(!hex_digits_at(input, reader.pos as int, (2 - count) as nat));
                        }
                        return Err(
                            LexerError {
                                kind: LexerErrorKind::InvalidEscapeSequence,
                                span: Span { start, end: reader.pos() },
                            },
                        );
                    },
                };
                if !NumberLiteral::is_hex_digit(d) {
                    proof {
                        assert(!hex_digits_at(input, reader.pos as int, (2 - count) as nat));
                    }
                    return Err(
                        LexerError {
                            kind: LexerErrorKind::InvalidEscapeSequence,
                            span: Span { start, end: reader.pos() },
                        },
                    );
                }
                let dv = hex_digit_value(d);
                let ghost dpos = reader.pos as int;
                let _taken = esc_take(reader, &mut raw);
                value = value * 16 + dv;
                proof {
                    assert(is_hex_digit_byte(d as u8));
                    assert(raw@ =~= input.subrange(pos0, reader.pos as int));
                    lemma_ascii_decode(input, dpos);
                    assert(hex_digits_at(input, dpos, (2 - count) as nat) == hex_digits_at(
                        input,
                        reader.pos as int,
                        (2 - (count + 1)) as nat,
                    ));
                    assert(skip_decoded(input, dpos, (2 - count) as nat) == skip_decoded(
                        input,
                        reader.pos as int,
                        (2 - (count + 1)) as nat,
                    ));
                    let nd = raw@.subrange(2, raw@.len() as int);
                    assert(nd.drop_last() =~= digits);
                    assert(nd.last() == d as u8);
                    assert forall|i: int| 0 <= i < nd.len() implies is_hex_digit_byte(
                        #[trigger] nd[i],
                    ) by {
                        if i < nd.len() - 1 {
                            assert(nd[i] == nd.drop_last()[i]);
                        } else {
                            assert(nd[i] == nd.last());
                        }
                    }
                    digits = nd;
                }
                count = count + 1;
            }
            proof {
                assert(is_scalar(value));
            }
            let ch = char::from_u32(value).unwrap();
            proof {
                assert(raw@.subrange(2, 4) == digits);
                assert(raw@[2] == digits[0] && raw@[3] == digits[1]);
                assert(ch as u32 == value);
                assert(escape_payload_wf(EscapeKind::Hex, raw@, ch));
                assert(hex_digits_at(input, reader.pos as int, 0));
                assert(escape_scan_ok(input, pos0, kind));
                assert(escape_scan_end(input, pos0, kind) == reader.pos as int);
            }
            return Ok(
                EscapeSequenceResult {
                    kind: EscapeKind::Hex,
                    character: ch,
                    start,
                    end: reader.pos(),
                    raw,
                },
            );
        }
        if next == 'u' && (kind == EscapeSequenceKind::Unicode || kind
            == EscapeSequenceKind::All) {
            let _cu = esc_take(reader, &mut raw);
            proof {
                assert(raw@ =~= input.subrange(pos0, reader.pos as int));
            }
            let brace = match reader.peek() {
                Some(c) => c == '{',
                None => false,
            };
            if brace {
                proof {
                    lemma_ascii_decode(input, reader.pos as int);
                }
                let _cb = esc_take(reader, &mut raw);
                proof {
                    assert(raw@ =~= input.subrange(pos0, reader.pos as int));
                    assert(escape_scan_ok(input, pos0, kind) == brace_scan_ok(
                        input,
                        reader.pos as int,
                        0,
                        0,
                    ));
                }
                let mut value: u32 = 0;
                let ghost digits = Seq::<u8>::empty();
                let mut count: usize = 0;
                loop
                    invariant
                        reader.wf(),
                        reader.input == old(reader).input,
                        input == reader.input@,
                        pos0 == old(reader).pos,
                        start == old(reader).pos,
                        kind == EscapeSequenceKind::Unicode || kind == EscapeSequenceKind::All,
                        escape_scan_ok(input, pos0, kind) == brace_scan_ok(
                            input,
                            reader.pos as int,
                            count as nat,
                            value as int,
                        ),
                        escape_scan_end(input, pos0, kind) == brace_scan_end(
                            input,
                            reader.pos as int,
                            count as nat,
                            value as int,
                        ),
                        pos0 + 3 <= reader.pos,
                        count <= 6,
                        raw@ == input.subrange(pos0, reader.pos as int),
                        raw@.len() == 3 + count,
                        raw@[0] == 92 && raw@[1] == 117 && raw@[2] == 123,
                        digits == raw@.subrange(3, raw@.len() as int),
                        forall|i: int|
                            0 <= i < digits.len() ==> is_hex_digit_byte(#[trigger] digits[i]),
                        digits.len() == count,
                        value == escape_digits_value(digits, 16),
                        value <= 0x10FFFF,
                    decreases input.len() - reader.pos,
                {
                    let ghost hpos = reader.pos as int;
                    let ghost hval = value as int;
                    let d = match reader.peek() {
                        Some(d) => d,
                        None => {
                            proof {
                                assert(!brace_scan_ok(input, hpos, count as nat, hval));
                            }
                            return Err(
                                LexerError {
                                    kind: LexerErrorKind::InvalidEscapeSequence,
                                    span: Span { start, end: reader.pos() },
                                },
                            );
                        },
                    };
                    if d == '}' {
                        if count == 0 {
                            proof {
                                assert(!brace_scan_ok(input, hpos, count as nat, hval));
                            }
                            return Err(
                                LexerError {
                                    kind: LexerErrorKind::InvalidEscapeSequence,
                                    span: Span { start, end: reader.pos() },
                                },
                            );
                        }
                        let _cc = esc_take(reader, &mut raw);
                        proof {
                            assert(raw@ =~= input.subrange(pos0, reader.pos as int));
                        }
                        let ch = match char::from_u32(value) {
                            Some(ch) => ch,
                            None => {
                                proof {
                                    assert(0xD800 <= hval <= 0xDFFF);
                                    assert(!brace_scan_ok(input, hpos, count as nat, hval));
                                }
                                return Err(
                                    LexerError {
                                        kind: LexerErrorKind::InvalidEscapeSequence,
                                        span: Span { start, end: reader.pos() },
                                    },
                                );
                            },
                        };
                        proof {
                            assert(brace_scan_ok(input, hpos, count as nat, hval));
                            assert(escape_scan_ok(input, pos0, kind));
                            lemma_ascii_decode(input, hpos);
                            assert(brace_scan_end(input, hpos, count as nat, hval)
                                == reader.pos as int);
                            assert(escape_scan_end(input, pos0, kind) == reader.pos as int);
                        }
                        proof {
                            assert(raw@.last() == 125);
                            assert(raw@.subrange(3, raw@.len() - 1) =~= digits);
                            assert(ch as u32 == value);
                            assert forall|i: int| 3 <= i < raw@.len() - 1 implies is_hex_digit_byte(
                                #[trigger] raw@[i],
                            ) by {
                                assert(raw@[i] == digits[i - 3]);
                            }
                            assert(escape_payload_wf(EscapeKind::Unicode, raw@, ch));
                        }
                        return Ok(
                            EscapeSequenceResult {
                                kind: EscapeKind::Unicode,
                                character: ch,
                                start,
                                end: reader.pos(),
                                raw,
                            },
                        );
                    }
                    if !NumberLiteral::is_hex_digit(d) || count >= 6 {
                        proof {
                            assert(!brace_scan_ok(input, hpos, count as nat, hval));
                        }
                        return Err(
                            LexerError {
                                kind: LexerErrorKind::InvalidEscapeSequence,
                                span: Span { start, end: reader.pos() },
                            },
                        );
                    }
                    let dv = hex_digit_value(d);
                    let _taken = esc_take(reader, &mut raw);
                    value = value * 16 + dv;
                    if value > 0x10FFFF {
                        proof {
                            assert(hval * 16 + byte_digit_val(d as u8) > 0x10FFFF);
                            assert(!brace_scan_ok(input, hpos, count as nat, hval));
                        }
                        return Err(
                            LexerError {
                                kind: LexerErrorKind::InvalidEscapeSequence,
                                span: Span { start, end: reader.pos() },
                            },
                        );
                    }
                    proof {
                        assert(is_hex_digit_byte(d as u8));
                        assert(raw@ =~= input.subrange(pos0, reader.pos as int));
                        lemma_ascii_decode(input, hpos);
                        assert(brace_scan_ok(input, hpos, count as nat, hval) == brace_scan_ok(
                            input,
                            reader.pos as int,
                            (count + 1) as nat,
                            value as int,
                        ));
                        assert(brace_scan_end(input, hpos, count as nat, hval) == brace_scan_end(
                            input,
                            reader.pos as int,
                            (count + 1) as nat,
                            value as int,
                        ));
                        let nd = raw@.subrange(3, raw@.len() as int);
                        assert(nd.drop_last() =~= digits);
                        assert(nd.last() == d as u8);
                        assert forall|i: int| 0 <= i < nd.len() implies is_hex_digit_byte(
                            #[trigger] nd[i],
                        ) by {
                            if i < nd.len() - 1 {
                                assert(nd[i] == nd.drop_last()[i]);
                            } else {
                                assert(nd[i] == nd.last());
                            }
                        }
                        digits = nd;
                    }
                    count = count + 1;
                }
            } else {
                let ghost dstart = reader.pos as int;
                proof {
                    assert(escape_scan_ok(input, pos0, kind) == (hex_digits_at(input, dstart, 4)
                        && !(0xD800 <= hex_digits_value(input, dstart, 4, 0) <= 0xDFFF)));
                }
                let mut value: u32 = 0;
                let ghost digits = Seq::<u8>::empty();
                let mut count: usize = 0;
                while count < 4
                    invariant
                        reader.wf(),
                        reader.input == old(reader).input,
                        input == reader.input@,
                        pos0 == old(reader).pos,
                        start == old(reader).pos,
                        kind == EscapeSequenceKind::Unicode || kind == EscapeSequenceKind::All,
                        escape_scan_ok(input, pos0, kind) == (hex_digits_at(input, dstart, 4) && !(
                        0xD800 <= hex_digits_value(input, dstart, 4, 0) <= 0xDFFF)),
                        escape_scan_end(input, pos0, kind) == skip_decoded(
                            input,
                            reader.pos as int,
                            (4 - count) as nat,
                        ),
                        hex_digits_at(input, dstart, 4) == hex_digits_at(
                            input,
                            reader.pos as int,
                            (4 - count) as nat,
                        ),
                        hex_digits_value(input, dstart, 4, 0) == hex_digits_value(
                            input,
                            reader.pos as int,
                            (4 - count) as nat,
                            value as int,
                        ),
                        pos0 + 2 <= reader.pos,
                        count <= 4,
                        raw@ == input.subrange(pos0, reader.pos as int),
                        raw@.len() == 2 + count,
                        raw@[0] == 92 && raw@[1] == 117,
                        digits == raw@.subrange(2, raw@.len() as int),
                        forall|i: int|
                            0 <= i < digits.len() ==> is_hex_digit_byte(#[trigger] digits[i]),
                        digits.len() == count,
                        value == escape_digits_value(digits, 16),
                        count == 0 ==> value == 0,
                        count == 1 ==> value < 0x10,
                        count == 2 ==> value < 0x100,
                        count == 3 ==> value < 0x1000,
                        count == 4 ==> value < 0x10000,
                    decreases 4 - count,
                {
                    let ghost hpos = reader.pos as int;
                    let ghost hval = value as int;
                    let d = match reader.peek() {
                        Some(d) => d,
                        None => {
                            proof {
                                assert(!hex_digits_at(input, hpos, (4 - count) as nat));
                            }
                            return Err(
                                LexerError {
                                    kind: LexerErrorKind::InvalidEscapeSequence,
                                    span: Span { start, end: reader.pos() },
                                },
                            );
                        },
                    };
                    if !NumberLiteral::is_hex_digit(d) {
                        proof {
                            assert(!hex_digits_at(input, hpos, (4 - count) as nat));
                        }
                        return Err(
                            LexerError {
                                kind: LexerErrorKind::InvalidEscapeSequence,
                                span: Span { start, end: reader.pos() },
                            },
                        );
                    }
                    let dv = hex_digit_value(d);
                    let _taken = esc_take(reader, &mut raw);
                    value = value * 16 + dv;
                    proof {
                        assert(is_hex_digit_byte(d as u8));
                        assert(raw@ =~= input.subrange(pos0, reader.pos as int));
                        lemma_ascii_decode(input, hpos);
                        assert(hex_digits_at(input, hpos, (4 - count) as nat) == hex_digits_at(
                            input,
                            reader.pos as int,
                            (4 - (count + 1)) as nat,
                        ));
                        assert(hex_digits_value(input, hpos, (4 - count) as nat, hval)
                            == hex_digits_value(
                            input,
                            reader.pos as int,
                            (4 - (count + 1)) as nat,
                            value as int,
                        ));
                        assert(skip_decoded(input, hpos, (4 - count) as nat) == skip_decoded(
                            input,
                            reader.pos as int,
                            (4 - (count + 1)) as nat,
                        ));
                        let nd = raw@.subrange(2, raw@.len() as int);
                        assert(nd.drop_last() =~= digits);
                        assert(nd.last() == d as u8);
                        assert forall|i: int| 0 <= i < nd.len() implies is_hex_digit_byte(
                            #[trigger] nd[i],
                        ) by {
                            if i < nd.len() - 1 {
                                assert(nd[i] == nd.drop_last()[i]);
                            } else {
                                assert(nd[i] == nd.last());
                            }
                        }
                        digits = nd;
                    }
                    count = count + 1;
                }
                proof {
                    assert(hex_digits_value(input, reader.pos as int, 0, value as int)
                        == value as int);
                    assert(hex_digits_value(input, dstart, 4, 0) == value as int);
                    assert(hex_digits_at(input, dstart, 4));
                }
                let ch = match char::from_u32(value) {
                    Some(ch) => ch,
                    None => {
                        proof {
                            assert(0xD800 <= value <= 0xDFFF);
                            assert(!escape_scan_ok(input, pos0, kind));
                        }
                        return Err(
                            LexerError {
                                kind: LexerErrorKind::InvalidEscapeSequence,
                                span: Span { start, end: reader.pos() },
                            },
                        );
                    },
                };
                proof {
                    assert(raw@.subrange(2, 6) =~= digits);
                    assert(ch as u32 == value);
                    assert forall|i: int| 2 <= i < 6 implies is_hex_digit_byte(
                        #[trigger] raw@[i],
                    ) by {
                        assert(raw@[i] == digits[i - 2]);
                    }
                    assert(escape_payload_wf(EscapeKind::Unicode, raw@, ch));
                    assert(escape_scan_ok(input, pos0, kind));
                    assert(escape_scan_end(input, pos0, kind) == reader.pos as int);
                }
                return Ok(
                    EscapeSequenceResult {
                        kind: EscapeKind::Unicode,
                        character: ch,
                        start,
                        end: reader.pos(),
                        raw,
                    },
                );
            }
        }
        if NumberLiteral::is_octal_digit(next) && (kind == EscapeSequenceKind::Octal || kind
            == EscapeSequenceKind::All) {
            proof {
                assert(escape_scan_ok(input, pos0, kind) == octal_escape_scan(input, p1, 0, 0));
            }
            let mut value: u32 = 0;
            let ghost digits = Seq::<u8>::empty();
            let mut count: usize = 0;
            while count < 3
                invariant
                    reader.wf(),
                    reader.input == old(reader).input,
                    input == reader.input@,
                    pos0 == old(reader).pos,
                    start == old(reader).pos,
                    kind == EscapeSequenceKind::Octal || kind == EscapeSequenceKind::All,
                    escape_scan_ok(input, pos0, kind) == octal_escape_scan(
                        input,
                        reader.pos as int,
                        count as nat,
                        value as int,
                    ),
                    escape_scan_end(input, pos0, kind) == octal_scan_end(
                        input,
                        reader.pos as int,
                        count as nat,
                    ),
                    p1 == pos0 + 1,
                    decode_ok(input, p1) && spec_is_octal_digit(decoded_char(input, p1)),
                    pos0 + 1 <= reader.pos,
                    count <= 3,
                    raw@ == input.subrange(pos0, reader.pos as int),
                    raw@.len() == 1 + count,
                    raw@[0] == 92,
                    digits == raw@.subrange(1, raw@.len() as int),
                    forall|i: int| 0 <= i < digits.len() ==> is_octal_digit_byte(#[trigger] digits[i]),
                    digits.len() == count,
                    value == escape_digits_value(digits, 8),
                    count == 0 ==> value == 0,
                    count == 1 ==> value < 8,
                    count == 2 ==> value < 64,
                    count == 3 ==> value < 512,
                ensures
                    escape_scan_ok(input, pos0, kind) == octal_escape_scan(
                        input,
                        reader.pos as int,
                        count as nat,
                        value as int,
                    ),
                    escape_scan_end(input, pos0, kind) == octal_scan_end(
                        input,
                        reader.pos as int,
                        count as nat,
                    ),
                    value < 512,
                    raw@ == input.subrange(pos0, reader.pos as int),
                    raw@.len() == 1 + count,
                    raw@[0] == 92,
                    digits == raw@.subrange(1, raw@.len() as int),
                    forall|i: int| 0 <= i < digits.len() ==> is_octal_digit_byte(#[trigger] digits[i]),
                    digits.len() == count,
                    value == escape_digits_value(digits, 8),
                    count > 0,
                    reader.wf(),
                    reader.input == old(reader).input,
                    input == reader.input@,
                    pos0 == old(reader).pos,
                    start == old(reader).pos,
                    pos0 + 1 <= reader.pos,
                    count == 3 || !(decode_ok(input, reader.pos as int) && spec_is_octal_digit(
                        decoded_char(input, reader.pos as int),
                    )),
                decreases 3 - count,
            {
                let more = match reader.peek() {
                    Some(d) => NumberLiteral::is_octal_digit(d),
                    None => false,
                };
                if !more {
                    proof {
                        if count == 0 {
                            assert(reader.pos == pos0 + 1);
                            assert(decode_ok(input, p1) && spec_is_octal_digit(
                                decoded_char(input, p1),
                            ));
                            assert(false);
                        }
                    }
                    break ;
                }
                let d = reader.peek().unwrap();
                let dv = octal_digit_value(d);
                let ghost hpos = reader.pos as int;
                let ghost hval = value as int;
                let _taken = esc_take(reader, &mut raw);
                value = value * 8 + dv;
                proof {
                    assert(is_octal_digit_byte(d as u8));
                    assert(raw@ =~= input.subrange(pos0, reader.pos as int));
                    lemma_ascii_decode(input, hpos);
                    assert(octal_escape_scan(input, hpos, count as nat, hval)
                        == octal_escape_scan(
                        input,
                        reader.pos as int,
                        (count + 1) as nat,
                        value as int,
                    ));
                    assert(octal_scan_end(input, hpos, count as nat) == octal_scan_end(
                        input,
                        reader.pos as int,
                        (count + 1) as nat,
                    ));
                    let nd = raw@.subrange(1, raw@.len() as int);
                    assert(nd.drop_last() =~= digits);
                    assert(nd.last() == d as u8);
                    assert forall|i: int| 0 <= i < nd.len() implies is_octal_digit_byte(
                        #[trigger] nd[i],
                    ) by {
                        if i < nd.len() - 1 {
                            assert(nd[i] == nd.drop_last()[i]);
                        } else {
                            assert(nd[i] == nd.last());
                        }
                    }
                    digits = nd;
                }
                count = count + 1;
            }
            if count == 0 {
                return Err(
                    LexerError {
                        kind: LexerErrorKind::InvalidEscapeSequence,
                        span: Span { start, end: reader.pos() },
                    },
                );
            }
            proof {
                assert(octal_escape_scan(input, reader.pos as int, count as nat, value as int)
                    == (value <= 255));
            }
            if value > 255 {
                // a legacy octal escape may not exceed 0o377
                proof {
                    assert(!escape_scan_ok(input, pos0, kind));
                }
                return Err(
                    LexerError {
                        kind: LexerErrorKind::InvalidEscapeSequence,
                        span: Span { start, end: reader.pos() },
                    },
                );
            }
            proof {
                assert(escape_scan_ok(input, pos0, kind));
                assert(octal_scan_end(input, reader.pos as int, count as nat)
                    == reader.pos as int);
                assert(escape_scan_end(input, pos0, kind) == reader.pos as int);
                assert(is_scalar(value));
                assert(raw@.subrange(1, raw@.len() as int) =~= digits);
                assert forall|i: int| 1 <= i < raw@.len() implies is_octal_digit_byte(
                    #[trigger] raw@[i],
                ) by {
                    assert(raw@[i] == digits[i - 1]);
                }
            }
            let ch = char::from_u32(value).unwrap();
            proof {
                assert(ch as u32 == value);
                assert(escape_payload_wf(EscapeKind::Octal, raw@, ch));
            }
            return Ok(
                EscapeSequenceResult {
                    kind: EscapeKind::Octal,
                    character: ch,
                    start,
                    end: reader.pos(),
                    raw,
                },
            );
        }
        if Token::is_single_escape_char(next) && (kind == EscapeSequenceKind::Simple || kind
            == EscapeSequenceKind::All) {
            let _taken = esc_take(reader, &mut raw);
            proof {
                assert(raw@ =~= input.subrange(pos0, reader.pos as int));
                assert(escape_scan_ok(input, pos0, kind));
                assert(escape_scan_end(input, pos0, kind) == reader.pos as int);
            }
            let ch = if next == '\'' {
                '\''
            } else if next == '"' {
                '"'
            } else if next == '\\' {
                '\\'
            } else if next == 'b' {
                '\u{0008}'
            } else if next == 'f' {
                '\u{000C}'
            } else if next == 'n' {
                '\u{000A}'
            } else if next == 'r' {
                '\u{000D}'
            } else if next == 't' {
                '\u{0009}'
            } else {
                '\u{000B}'
            };
            return Ok(
                EscapeSequenceResult {
                    kind: EscapeKind::Simple,
                    character: ch,
                    start,
                    end: reader.pos(),
                    raw,
                },
            );
        }
        proof {
            assert(!escape_scan_ok(input, pos0, kind));
        }
        Err(
            LexerError {
                kind: LexerErrorKind::InvalidEscapeSequence,
                span: Span { start, end: reader.pos() },
            },
        )
    }

    /// Reads one single- or double-quoted string literal; the cursor must
    /// stand on the opening delimiter.  The token's `raw` holds the interior
    /// bytes verbatim, `value` the decoded text, and `escapes` one record per
    /// escape sequence.
    #[verifier::rlimit(100)]
    #[verifier::spinoff_prover]
    pub fn read_string(&mut self, reader: &mut Utf8Cursor, start_ch: char) -> (r: Result<
        Vec<Token>,
        LexerError,
    >)
        requires
            scan_ok(*old(self), *old(reader)),
            decode_ok(old(reader).input@, old(reader).pos as int),
            decoded_char(old(reader).input@, old(reader).pos as int) == start_ch,
            start_ch == '"' || start_ch == '\'',
        ensures
            scan_ok(*final(self), *final(reader)),
            same_but_counters(*old(self), *final(self)),
            final(reader).input == old(reader).input,
            old(reader).pos <= final(reader).pos,
            (r matches Ok(ts) ==> {
                &&& tokens_chain(
                    ts@,
                    old(reader).input@,
                    old(reader).pos as int,
                    final(reader).pos as int,
                )
                &&& final(reader).pos > old(reader).pos
                &&& ts@.len() == 1
            }),
            (r matches Err(e) ==> e.span.start <= final(reader).pos <= e.span.end
                && e.span.end <= final(reader).input@.len()),
            (r matches Err(e) ==> (e.kind matches LexerErrorKind::UnterminatedString
                || e.kind matches LexerErrorKind::UnexpectedCharacter { .. }
                || e.kind matches LexerErrorKind::InvalidEscapeSequence
                || e.kind matches LexerErrorKind::LegacyOctalInStrictMode)),
            (r is Ok <==> quoted_scan_ok(
                old(reader).input@,
                old(reader).pos + 1,
                start_ch,
                old(self).strict_mode,
            )),
            (r matches Ok(ts) ==> ts@[0].kind matches TokenKind::StringLiteral { .. }),
    {
        let ghost input = reader.input@;
        let ghost pos0 = reader.pos as int;
        let start = reader.pos();
        let line0 = self.current_line;
        let col0 = self.current_column;
        let _cq = self.skip_char(reader);
        proof {
            crate::utf8_cursor::lemma_ascii_decode(input, pos0);
            assert(input[pos0] == start_ch as u8);
        }
        let mut value = String::new();
        let mut raw_bytes: Vec<u8> = Vec::new();
        let mut escapes: Vec<EscapeInfo> = Vec::new();
        proof {
            assert(raw_bytes@ =~= input.subrange(pos0 + 1, reader.pos as int));
            assert(vstd::utf8::valid_utf8(Seq::<u8>::empty()));
            assert(vstd::utf8::decode_utf8(Seq::<u8>::empty()) =~= Seq::<char>::empty());
            assert(raw_bytes@ =~= Seq::<u8>::empty());
        }
        loop
            invariant
                scan_ok(*self, *reader),
                same_but_counters(*old(self), *self),
                reader.input == old(reader).input,
                input == reader.input@,
                pos0 == old(reader).pos,
                start == old(reader).pos,
                line0 <= pos0,
                col0 <= pos0,
                start_ch == '"' || start_ch == '\'',
                input[pos0] == start_ch as u8,
                quoted_scan_ok(input, pos0 + 1, start_ch, old(self).strict_mode)
                    == quoted_scan_ok(
                    input,
                    reader.pos as int,
                    start_ch,
                    old(self).strict_mode,
                ),
                self.strict_mode == old(self).strict_mode,
                pos0 + 1 <= reader.pos,
                raw_bytes@ == input.subrange(pos0 + 1, reader.pos as int),
                escapes_wf(raw_bytes@, escapes@),
                crate::tokens::interior_valid(raw_bytes@, escapes@),
                value@ == crate::tokens::interior_value(raw_bytes@, escapes@),
            decreases input.len() - reader.pos,
        {
            let c = match reader.peek() {
                Some(c) => c,
                None => {
                    proof {
                        assert(!quoted_scan_ok(
                            input,
                            reader.pos as int,
                            start_ch,
                            old(self).strict_mode,
                        ));
                    }
                    return Err(
                        LexerError {
                            kind: if reader.eof() {
                                LexerErrorKind::UnterminatedString
                            } else {
                                LexerErrorKind::UnexpectedCharacter { found: '\u{FFFD}' }
                            },
                            span: Span { start, end: reader.pos() },
                        },
                    );
                },
            };
            if c == start_ch {
                proof {
                    assert(quoted_scan_ok(
                        input,
                        reader.pos as int,
                        start_ch,
                        old(self).strict_mode,
                    ));
                }
                let close_at = reader.pos();
                proof {
                    crate::utf8_cursor::lemma_ascii_decode(input, close_at as int);
                }
                let _cc = self.skip_char(reader);
                let end = reader.pos();
                let lexeme = reader.slice(start, end);
                let token = Token {
                    kind: TokenKind::StringLiteral { raw: raw_bytes, value, escapes },
                    lexeme,
                    start,
                    end,
                    line: line0,
                    column: col0,
                };
                proof {
                    reveal(crate::tokens::kind_wf);
                    assert(end == close_at + 1);
                    assert(input[close_at as int] == start_ch as u8);
                    assert(token.lexeme@[0] == input[pos0]);
                    assert(token.lexeme@[token.lexeme@.len() - 1] == input[close_at as int]);
                    assert(token.kind->StringLiteral_raw@ =~= token.lexeme@.subrange(
                        1,
                        token.lexeme@.len() - 1,
                    ));
                    assert(token_wf(token, input));
                    crate::tokens::lemma_chain_singleton(token, input);
                }
                let mut ts: Vec<Token> = Vec::new();
                ts.push(token);
                proof {
                    assert(ts@ =~= seq![token]);
                }
                return Ok(ts);
            }
            if Token::is_line_break(c) {
                // an unescaped line terminator ends the literal unterminated
                proof {
                    assert(!quoted_scan_ok(
                        input,
                        reader.pos as int,
                        start_ch,
                        old(self).strict_mode,
                    ));
                }
                return Err(
                    LexerError {
                        kind: LexerErrorKind::UnterminatedString,
                        span: Span { start, end: reader.pos() },
                    },
                );
            }
            if c == '\\' {
                let ghost esc_pos = reader.pos as int;
                let e = match Lexer::read_escape_sequence(reader, EscapeSequenceKind::All) {
                    Ok(e) => e,
                    Err(err) => {
                        proof {
                            assert(!quoted_scan_ok(
                                input,
                                esc_pos,
                                start_ch,
                                old(self).strict_mode,
                            ));
                        }
                        return Err(err);
                    },
                };
                proof {
                    // the escape family is read off the byte after the
                    // backslash
                    crate::utf8_cursor::lemma_ascii_decode(input, esc_pos);
                    assert(e.raw@.len() >= 2);
                    assert(e.raw@[1] == input[esc_pos + 1]);
                    crate::utf8_cursor::lemma_ascii_byte_decodes(input, esc_pos + 1);
                    if e.kind == EscapeKind::Octal {
                        assert(is_octal_digit_byte(input[esc_pos + 1]));
                        assert(spec_is_octal_digit(decoded_char(input, esc_pos + 1)));
                    } else {
                        assert(!is_octal_digit_byte(input[esc_pos + 1]));
                        assert(!spec_is_octal_digit(decoded_char(input, esc_pos + 1)));
                    }
                }
                if self.strict_mode && matches!(e.kind, EscapeKind::Octal) {
                    proof {
                        assert(!quoted_scan_ok(
                            input,
                            esc_pos,
                            start_ch,
                            old(self).strict_mode,
                        ));
                    }
                    return Err(
                        LexerError {
                            kind: LexerErrorKind::LegacyOctalInStrictMode,
                            span: Span { start: e.start, end: e.end },
                        },
                    );
                }
                proof {
                    assert(quoted_scan_ok(input, esc_pos, start_ch, old(self).strict_mode)
                        == quoted_scan_ok(
                        input,
                        reader.pos as int,
                        start_ch,
                        old(self).strict_mode,
                    ));
                }
                if Token::is_line_break(e.character) {
                    // a resolved line terminator moves the position to the
                    // next line
                    self.update_current_position(e.character);
                }
                push_char(&mut value, e.character);
                let pos_in_raw = e.start - (start + 1);
                let info = EscapeInfo {
                    kind: e.kind,
                    raw: e.raw,
                    resolved_char: e.character,
                    position_in_raw: pos_in_raw,
                };
                proof {
                    crate::tokens::lemma_escapes_wf_push(raw_bytes@, escapes@, info);
                    crate::tokens::lemma_interior_push_escape(raw_bytes@, escapes@, info);
                }
                crate::text::append_bytes(&mut raw_bytes, &info.raw);
                escapes.push(info);
                proof {
                    assert(raw_bytes@ =~= input.subrange(pos0 + 1, reader.pos as int));
                }
            } else {
                let piece_start = reader.pos();
                let c2 = self.skip_char(reader);
                push_char(&mut value, c2);
                let piece = reader.slice(piece_start, reader.pos());
                proof {
                    assert(quoted_scan_ok(
                        input,
                        piece_start as int,
                        start_ch,
                        old(self).strict_mode,
                    ) == quoted_scan_ok(
                        input,
                        reader.pos as int,
                        start_ch,
                        old(self).strict_mode,
                    ));
                    crate::utf8_cursor::lemma_decoded_bytes(input, piece_start as int);
                    crate::utf8_cursor::lemma_encode_scalar_ascii(c2);
                    assert(forall|k: int|
                        0 <= k < piece@.len() ==> #[trigger] piece@[k] != 92) by {
                        if (c2 as u32) < 0x80 {
                            assert(piece@ =~= seq![c2 as u8]);
                            assert(c2 as u32 != 92);
                        }
                    }
                    crate::tokens::lemma_escapes_wf_extend_plain(raw_bytes@, escapes@, piece@);
                    crate::utf8_cursor::lemma_encode_utf8_push(Seq::<char>::empty(), c2);
                    assert(vstd::utf8::encode_utf8(Seq::<char>::empty()) =~= Seq::<u8>::empty());
                    assert(Seq::<char>::empty().push(c2) =~= seq![c2]);
                    assert(piece@ =~= vstd::utf8::encode_utf8(seq![c2]));
                    vstd::utf8::encode_utf8_valid_utf8(seq![c2]);
                    vstd::utf8::encode_utf8_decode_utf8(seq![c2]);
                    crate::tokens::lemma_interior_extend_plain(raw_bytes@, escapes@, piece@);
                }
                crate::text::append_bytes(&mut raw_bytes, &piece);
                proof {
                    assert(raw_bytes@ =~= input.subrange(pos0 + 1, reader.pos as int));
                    assert(value@ =~= crate::tokens::interior_value(raw_bytes@, escapes@));
                }
            }
        }
    }

    /// Reads one whole template literal: the opening backtick, its textual
    /// pieces, and each `${ … }` interpolation scanned by the dispatcher.
    #[verifier::rlimit(100)]
    #[verifier::spinoff_prover]
    pub fn read_template_literal(&mut self, reader: &mut Utf8Cursor) -> (r: Result<
        Vec<Token>,
        LexerError,
    >)
        requires
            scan_ok(*old(self), *old(reader)),
            decode_ok(old(reader).input@, old(reader).pos as int),
            decoded_char(old(reader).input@, old(reader).pos as int) == '`',
        ensures
            scan_ok(*final(self), *final(reader)),
            same_but_counters(*old(self), *final(self)),
            final(reader).input == old(reader).input,
            old(reader).pos <= final(reader).pos,
            (r matches Ok(ts) ==> {
                &&& tokens_chain(
                    ts@,
                    old(reader).input@,
                    old(reader).pos as int,
                    final(reader).pos as int,
                )
                &&& final(reader).pos > old(reader).pos
            }),
            (r matches Err(e) ==> e.span.start <= final(reader).pos <= e.span.end
                && e.span.end <= final(reader).input@.len()),
        decreases old(reader).input@.len() - old(reader).pos, 0int,
    {
        let ghost input = reader.input@;
        let ghost pos0 = reader.pos as int;
        let start = reader.pos();
        let line0 = self.current_line;
        let col0 = self.current_column;
        proof {
            lemma_ascii_decode(input, pos0);
        }
        let _cb = self.skip_char(reader);
        let mut tokens: Vec<Token> = Vec::new();
        {
            let lexeme = reader.slice(start, reader.pos());
            let t = Token {
                kind: TokenKind::TemplateStart,
                lexeme,
                start,
                end: reader.pos(),
                line: line0,
                column: col0,
            };
            proof {
                assert(t.lexeme@ =~= seq![96u8]);
                reveal(crate::tokens::kind_wf);
                assert(token_wf(t, input));
                crate::tokens::lemma_chain_singleton(t, input);
            }
            tokens.push(t);
            proof {
                assert(tokens@ =~= seq![t]);
            }
        }
        let mut piece_start = reader.pos();
        let mut value = String::new();
        let mut raw_bytes: Vec<u8> = Vec::new();
        let mut escapes: Vec<EscapeInfo> = Vec::new();
        proof {
            assert(raw_bytes@ =~= input.subrange(piece_start as int, reader.pos as int));
            assert(vstd::utf8::valid_utf8(Seq::<u8>::empty()));
            assert(vstd::utf8::decode_utf8(Seq::<u8>::empty()) =~= Seq::<char>::empty());
            assert(raw_bytes@ =~= Seq::<u8>::empty());
        }
        loop
            invariant
                scan_ok(*self, *reader),
                same_but_counters(*old(self), *self),
                reader.input == old(reader).input,
                input == reader.input@,
                pos0 == old(reader).pos,
                start == old(reader).pos,
                pos0 < piece_start <= reader.pos,
                tokens_chain(tokens@, input, pos0, piece_start as int),
                raw_bytes@ == input.subrange(piece_start as int, reader.pos as int),
                escapes_wf(raw_bytes@, escapes@),
                crate::tokens::interior_valid(raw_bytes@, escapes@),
                value@ == crate::tokens::interior_value(raw_bytes@, escapes@),
            decreases input.len() - reader.pos,
        {
            let c = match reader.peek() {
                Some(c) => c,
                None => {
                    return Err(
                        LexerError {
                            kind: if reader.eof() {
                                LexerErrorKind::UnterminatedTemplate
                            } else {
                                LexerErrorKind::UnexpectedCharacter { found: '\u{FFFD}' }
                            },
                            span: Span { start, end: reader.pos() },
                        },
                    );
                },
            };
            if c == '`' {
                if reader.pos() > piece_start {
                    let piece_end = reader.pos();
                    let lexeme = reader.slice(piece_start, piece_end);
                    let t = Token {
                        kind: TokenKind::StringLiteral { raw: raw_bytes, value, escapes },
                        lexeme,
                        start: piece_start,
                        end: piece_end,
                        line: line0,
                        column: col0,
                    };
                    let ghost tokens0 = tokens@;
                    proof {
                        reveal(crate::tokens::kind_wf);
                        assert(t.kind->StringLiteral_raw@ =~= t.lexeme@);
                        assert(token_wf(t, input));
                        crate::tokens::lemma_chain_push(
                            tokens0,
                            input,
                            pos0,
                            piece_start as int,
                            t,
                        );
                    }
                    tokens.push(t);
                }
                let close_start = reader.pos();
                proof {
                    lemma_ascii_decode(input, close_start as int);
                }
                let _cb2 = self.skip_char(reader);
                let lexeme2 = reader.slice(close_start, reader.pos());
                let t2 = Token {
                    kind: TokenKind::TemplateEnd,
                    lexeme: lexeme2,
                    start: close_start,
                    end: reader.pos(),
                    line: line0,
                    column: col0,
                };
                let ghost tokens1 = tokens@;
                proof {
                    assert(t2.lexeme@ =~= seq![96u8]);
                    reveal(crate::tokens::kind_wf);
                    assert(token_wf(t2, input));
                    crate::tokens::lemma_chain_push(
                        tokens1,
                        input,
                        pos0,
                        close_start as int,
                        t2,
                    );
                }
                tokens.push(t2);
                return Ok(tokens);
            }
            if c == '$' && reader.peek_n(1) == Some('{') {
                if reader.pos() > piece_start {
                    let piece_end = reader.pos();
                    let lexeme = reader.slice(piece_start, piece_end);
                    let t = Token {
                        kind: TokenKind::StringLiteral { raw: raw_bytes, value, escapes },
                        lexeme,
                        start: piece_start,
                        end: piece_end,
                        line: line0,
                        column: col0,
                    };
                    let ghost tokens0 = tokens@;
                    proof {
                        reveal(crate::tokens::kind_wf);
                        assert(t.kind->StringLiteral_raw@ =~= t.lexeme@);
                        assert(token_wf(t, input));
                        crate::tokens::lemma_chain_push(
                            tokens0,
                            input,
                            pos0,
                            piece_start as int,
                            t,
                        );
                    }
                    tokens.push(t);
                }
                let dc_start = reader.pos();
                let ghost dcp = reader.pos as int;
                proof {
                    lemma_ascii_decode(input, dcp);
                    crate::utf8_cursor::lemma_peek_ahead_step(input, dcp, 1);
                }
                let _d1 = self.skip_char(reader);
                proof {
                    lemma_ascii_decode(input, reader.pos as int);
                }
                let _d2 = self.skip_char(reader);
                let lexeme3 = reader.slice(dc_start, reader.pos());
                let t3 = Token {
                    kind: TokenKind::DollarCurlyOpen,
                    lexeme: lexeme3,
                    start: dc_start,
                    end: reader.pos(),
                    line: line0,
                    column: col0,
                };
                let ghost tokens1 = tokens@;
                proof {
                    assert(t3.lexeme@ =~= seq![36u8, 123u8]);
                    reveal(crate::tokens::kind_wf);
                    assert(token_wf(t3, input));
                    crate::tokens::lemma_chain_push(tokens1, input, pos0, dc_start as int, t3);
                }
                tokens.push(t3);
                let ghost tokens2 = tokens@;
                let ghost mid = reader.pos as int;
                let mut sub = match self.read_template_string(reader) {
                    Ok(sub) => sub,
                    Err(e) => {
                        return Err(e);
                    },
                };
                proof {
                    crate::tokens::lemma_chain_concat(
                        tokens2,
                        sub@,
                        input,
                        pos0,
                        mid,
                        reader.pos as int,
                    );
                }
                tokens.append(&mut sub);
                piece_start = reader.pos();
                value = String::new();
                raw_bytes = Vec::new();
                escapes = Vec::new();
                proof {
                    assert(raw_bytes@ =~= input.subrange(piece_start as int, reader.pos as int));
                    assert(vstd::utf8::valid_utf8(Seq::<u8>::empty()));
                    assert(vstd::utf8::decode_utf8(Seq::<u8>::empty()) =~= Seq::<char>::empty());
                    assert(raw_bytes@ =~= Seq::<u8>::empty());
                }
            } else if c == '\\' {
                let e = match Lexer::read_escape_sequence(reader, EscapeSequenceKind::All) {
                    Ok(e) => e,
                    Err(err) => {
                        return Err(err);
                    },
                };
                if matches!(e.kind, EscapeKind::Octal) {
                    // template strings do not admit legacy octal escapes
                    return Err(
                        LexerError {
                            kind: LexerErrorKind::InvalidEscapeSequence,
                            span: Span { start: e.start, end: e.end },
                        },
                    );
                }
                if Token::is_line_break(e.character) {
                    self.update_current_position(e.character);
                }
                push_char(&mut value, e.character);
                let pos_in_raw = e.start - piece_start;
                let info = EscapeInfo {
                    kind: e.kind,
                    raw: e.raw,
                    resolved_char: e.character,
                    position_in_raw: pos_in_raw,
                };
                proof {
                    crate::tokens::lemma_escapes_wf_push(raw_bytes@, escapes@, info);
                    crate::tokens::lemma_interior_push_escape(raw_bytes@, escapes@, info);
                }
                crate::text::append_bytes(&mut raw_bytes, &info.raw);
                escapes.push(info);
                proof {
                    assert(raw_bytes@ =~= input.subrange(piece_start as int, reader.pos as int));
                }
            } else {
                let chunk_start = reader.pos();
                let c2 = self.skip_char(reader);
                push_char(&mut value, c2);
                let piece = reader.slice(chunk_start, reader.pos());
                proof {
                    crate::utf8_cursor::lemma_decoded_bytes(input, chunk_start as int);
                    crate::utf8_cursor::lemma_encode_scalar_ascii(c2);
                    assert(forall|k: int|
                        0 <= k < piece@.len() ==> #[trigger] piece@[k] != 92) by {
                        if (c2 as u32) < 0x80 {
                            assert(piece@ =~= seq![c2 as u8]);
                            assert(c2 as u32 != 92);
                        }
                    }
                    crate::tokens::lemma_escapes_wf_extend_plain(raw_bytes@, escapes@, piece@);
                    crate::utf8_cursor::lemma_encode_utf8_push(Seq::<char>::empty(), c2);
                    assert(vstd::utf8::encode_utf8(Seq::<char>::empty()) =~= Seq::<u8>::empty());
                    assert(Seq::<char>::empty().push(c2) =~= seq![c2]);
                    assert(piece@ =~= vstd::utf8::encode_utf8(seq![c2]));
                    vstd::utf8::encode_utf8_valid_utf8(seq![c2]);
                    vstd::utf8::encode_utf8_decode_utf8(seq![c2]);
                    crate::tokens::lemma_interior_extend_plain(raw_bytes@, escapes@, piece@);
                }
                crate::text::append_bytes(&mut raw_bytes, &piece);
                proof {
                    assert(raw_bytes@ =~= input.subrange(piece_start as int, reader.pos as int));
                    assert(value@ =~= crate::tokens::interior_value(raw_bytes@, escapes@));
                }
            }
        }
    }

    /// Scans a template interpolation up to (and including) the `}` that
    /// closes it, tracking the nesting depth of braces on the way.
    pub fn read_template_string(&mut self, reader: &mut Utf8Cursor) -> (r: Result<
        Vec<Token>,
        LexerError,
    >)
        requires
            scan_ok(*old(self), *old(reader)),
        ensures
            scan_ok(*final(self), *final(reader)),
            same_but_counters(*old(self), *final(self)),
            final(reader).input == old(reader).input,
            old(reader).pos <= final(reader).pos,
            (r matches Ok(ts) ==> {
                &&& tokens_chain(
                    ts@,
                    old(reader).input@,
                    old(reader).pos as int,
                    final(reader).pos as int,
                )
                &&& final(reader).pos > old(reader).pos
            }),
            (r matches Err(e) ==> e.span.start <= final(reader).pos <= e.span.end
                && e.span.end <= final(reader).input@.len()),
        decreases old(reader).input@.len() - old(reader).pos, 2int,
    {
        let ghost input = reader.input@;
        let ghost pos0 = reader.pos as int;
        let start = reader.pos();
        let line0 = self.current_line;
        let col0 = self.current_column;
        let mut depth: usize = 0;
        let mut tokens: Vec<Token> = Vec::new();
        proof {
            assert(tokens@ =~= Seq::<Token>::empty());
        }
        loop
            invariant
                scan_ok(*self, *reader),
                same_but_counters(*old(self), *self),
                reader.input == old(reader).input,
                input == reader.input@,
                pos0 == old(reader).pos,
                start == old(reader).pos,
                pos0 <= reader.pos,
                depth <= reader.pos - pos0,
                tokens_chain(tokens@, input, pos0, reader.pos as int),
            decreases input.len() - reader.pos,
        {
            let c = match reader.peek() {
                Some(c) => c,
                None => {
                    return Err(
                        LexerError {
                            kind: if reader.eof() {
                                LexerErrorKind::UnterminatedTemplate
                            } else {
                                LexerErrorKind::UnexpectedCharacter { found: '\u{FFFD}' }
                            },
                            span: Span { start, end: reader.pos() },
                        },
                    );
                },
            };
            if c == '}' && depth == 0 {
                let close_start = reader.pos();
                proof {
                    lemma_ascii_decode(input, close_start as int);
                }
                let _cc = self.skip_char(reader);
                let lexeme = reader.slice(close_start, reader.pos());
                let t = Token {
                    kind: TokenKind::Operator(crate::tables::OperatorEnum::RightBrace),
                    lexeme,
                    start: close_start,
                    end: reader.pos(),
                    line: line0,
                    column: col0,
                };
                let ghost tokens0 = tokens@;
                proof {
                    reveal_strlit("}");
                    crate::utf8_cursor::lemma_encode_scalar_ascii('}');
                    crate::utf8_cursor::lemma_encode_utf8_push(Seq::<char>::empty(), '}');
                    assert(vstd::utf8::encode_utf8(Seq::<char>::empty()) =~= Seq::<u8>::empty());
                    assert(Seq::<char>::empty().push('}') =~= seq!['}']);
                    assert("}"@ =~= seq!['}']);
                    assert(vstd::utf8::encode_utf8("}"@) =~= seq![125u8]);
                    assert(t.lexeme@ =~= seq![125u8]);
                    reveal(crate::tokens::kind_wf);
                assert(token_wf(t, input));
                    crate::tokens::lemma_chain_push(tokens0, input, pos0, close_start as int, t);
                }
                tokens.push(t);
                return Ok(tokens);
            }
            if c == '{' {
                depth = depth + 1;
            } else if c == '}' {
                depth = depth - 1;
            }
            let ghost tokens0 = tokens@;
            let ghost mid = reader.pos as int;
            let mut sub = match self.read_expression(reader) {
                Ok(sub) => sub,
                Err(e) => {
                    return Err(e);
                },
            };
            proof {
                crate::tokens::lemma_chain_concat(
                    tokens0,
                    sub@,
                    input,
                    pos0,
                    mid,
                    reader.pos as int,
                );
            }
            tokens.append(&mut sub);
        }
    }
}

} // verus!
