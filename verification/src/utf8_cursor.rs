//! A byte cursor over UTF-8 input.
//!
//! The cursor owns the input as an immutable byte sequence together with an
//! advancing byte offset.  `peek` decodes the code point at the current
//! offset without moving; `advance` decodes and moves past it; `undo` rewinds
//! the last successful `advance` by the width of that decoding.
//!
//! The decoder accepts exactly the byte sequences whose leading and
//! continuation bytes are well formed and whose decoded value is a Unicode
//! scalar; everything else (a stray continuation byte, a truncated sequence,
//! a surrogate or out-of-range value) decodes to `None`.

use vstd::prelude::*;
use vstd::string::StringSliceAdditionalSpecFns;
use vstd::string::StrSliceExecFns;
use vstd::utf8::decode_first_codepoint;
use vstd::utf8::decode_first_scalar;
use vstd::utf8::encode_scalar;
use vstd::utf8::encode_utf8;
use vstd::utf8::is_scalar;
use vstd::utf8::length_of_first_codepoint;
use vstd::utf8::length_of_first_scalar;
use vstd::utf8::valid_first_scalar;
use vstd::utf8::valid_leading_and_continuation_bytes_first_codepoint;

verus! {

broadcast use vstd::utf8::group_utf8_lib;

/// Relies on `char::from_u32` of std: `Some` exactly for Unicode scalar
/// values (at most 0x10FFFF and not a surrogate), returning the `char` with
/// that code.
pub assume_specification[ char::from_u32 ](v: u32) -> (r: Option<char>)
    ensures
        r is Some <==> is_scalar(v),
        (r matches Some(c) ==> c as u32 == v),
;

/// True when the bytes at `pos` begin a well-formed UTF-8 encoding of a
/// single Unicode scalar.
pub open spec fn decode_ok(bytes: Seq<u8>, pos: int) -> bool {
    &&& 0 <= pos < bytes.len()
    &&& valid_first_scalar(bytes.subrange(pos, bytes.len() as int))
}

/// The character decoded at `pos`, when `decode_ok` holds there.
pub open spec fn decoded_char(bytes: Seq<u8>, pos: int) -> char
    recommends
        decode_ok(bytes, pos),
{
    decode_first_scalar(bytes.subrange(pos, bytes.len() as int)) as char
}

/// The byte width of the sequence decoded at `pos`, when `decode_ok` holds.
pub open spec fn decoded_len(bytes: Seq<u8>, pos: int) -> int
    recommends
        decode_ok(bytes, pos),
{
    length_of_first_scalar(bytes.subrange(pos, bytes.len() as int))
}

/// The code point found by skipping `n` decodable sequences from `pos`;
/// `None` when fewer than `n + 1` sequences can be decoded.
pub open spec fn spec_peek_ahead(bytes: Seq<u8>, pos: int, n: nat) -> Option<char>
    decreases n,
{
    if !decode_ok(bytes, pos) {
        None
    } else if n == 0 {
        Some(decoded_char(bytes, pos))
    } else {
        spec_peek_ahead(bytes, pos + decoded_len(bytes, pos), (n - 1) as nat)
    }
}

/// Appending one character to a sequence appends its scalar encoding to the
/// sequence's UTF-8 encoding.
pub proof fn lemma_encode_utf8_push(s: Seq<char>, c: char)
    ensures
        encode_utf8(s.push(c)) == encode_utf8(s) + encode_scalar(c as u32),
    decreases s.len(),
{
    if s.len() == 0 {
        assert(s.push(c)[0] == c);
        assert(s.push(c).drop_first() =~= Seq::<char>::empty());
        assert(encode_utf8(s.push(c)) == encode_scalar(c as u32) + encode_utf8(
            Seq::<char>::empty(),
        ));
        assert(encode_scalar(c as u32) + encode_utf8(Seq::<char>::empty()) =~= encode_scalar(
            c as u32,
        ));
        assert(encode_utf8(s) + encode_scalar(c as u32) =~= encode_scalar(c as u32));
    } else {
        assert(s.push(c)[0] == s[0]);
        assert(s.push(c).drop_first() =~= s.drop_first().push(c));
        lemma_encode_utf8_push(s.drop_first(), c);
        assert(encode_utf8(s.push(c)) == encode_scalar(s[0] as u32) + (encode_utf8(s.drop_first())
            + encode_scalar(c as u32)));
        assert(encode_scalar(s[0] as u32) + (encode_utf8(s.drop_first()) + encode_scalar(
            c as u32,
        )) =~= (encode_scalar(s[0] as u32) + encode_utf8(s.drop_first())) + encode_scalar(
            c as u32,
        ));
    }
}

/// The UTF-8 encoding of a concatenation is the concatenation of the
/// encodings.
pub proof fn lemma_encode_utf8_concat(a: Seq<char>, b: Seq<char>)
    ensures
        encode_utf8(a + b) == encode_utf8(a) + encode_utf8(b),
    decreases b.len(),
{
    if b.len() == 0 {
        assert(a + b =~= a);
        assert(encode_utf8(a) + encode_utf8(b) =~= encode_utf8(a));
    } else {
        lemma_encode_utf8_concat(a, b.drop_last());
        lemma_encode_utf8_push(a + b.drop_last(), b.last());
        lemma_encode_utf8_push(b.drop_last(), b.last());
        assert((a + b.drop_last()).push(b.last()) =~= a + b);
        assert(b.drop_last().push(b.last()) =~= b);
        assert(encode_utf8(a) + (encode_utf8(b.drop_last()) + encode_scalar(
            b.last() as u32,
        )) =~= (encode_utf8(a) + encode_utf8(b.drop_last())) + encode_scalar(b.last() as u32));
    }
}

/// The bytes of one decoded sequence are exactly the scalar encoding of the
/// decoded character.
pub proof fn lemma_decoded_bytes(bytes: Seq<u8>, pos: int)
    requires
        decode_ok(bytes, pos),
    ensures
        1 <= decoded_len(bytes, pos) <= 4,
        pos + decoded_len(bytes, pos) <= bytes.len(),
        bytes.subrange(pos, pos + decoded_len(bytes, pos)) == vstd::utf8::encode_scalar(
            decoded_char(bytes, pos) as u32,
        ),
{
    let rest = bytes.subrange(pos, bytes.len() as int);
    let w = length_of_first_scalar(rest);
    let taken = rest.subrange(0, w);
    assert(taken.len() == w);
    assert(valid_first_scalar(taken)) by {
        assert(forall|i: int| 0 <= i < w ==> taken[i] == rest[i]);
        assert(decode_first_codepoint(taken) == decode_first_codepoint(rest));
        assert(length_of_first_codepoint(taken) == length_of_first_codepoint(rest));
    }
    assert(vstd::utf8::pop_first_scalar(taken) =~= Seq::<u8>::empty());
    assert(vstd::utf8::valid_utf8(Seq::<u8>::empty()));
    assert(vstd::utf8::valid_utf8(taken));
    vstd::utf8::decode_utf8_first_scalar(taken);
    assert(vstd::utf8::take_first_scalar(taken) =~= taken);
    assert(decode_first_scalar(taken) == decode_first_scalar(rest));
    assert(bytes.subrange(pos, pos + w) =~= taken);
}

/// The code point decoded at a well-formed position is a Unicode scalar,
/// and the decoded character casts back to it.
pub proof fn lemma_decode_ok_is_scalar(bytes: Seq<u8>, pos: int)
    requires
        decode_ok(bytes, pos),
    ensures
        is_scalar(decode_first_codepoint(bytes.subrange(pos, bytes.len() as int))),
        decoded_char(bytes, pos) as u32 == decode_first_codepoint(
            bytes.subrange(pos, bytes.len() as int),
        ),
{
    let rest = bytes.subrange(pos, bytes.len() as int);
    let code = decode_first_codepoint(rest);
    let b0 = rest[0];
    if vstd::utf8::is_leading_byte_width_1(b0) {
        assert(code == vstd::utf8::codepoint_width_1(b0));
        assert((b0 & 0x7F) as u32 <= 0x7f) by (bit_vector)
            requires
                b0 <= 0x7f,
        ;
    } else if vstd::utf8::is_leading_byte_width_2(b0) {
        let b1 = rest[1];
        assert(code == vstd::utf8::codepoint_width_2(b0, b1));
        assert((((b0 & 0x1F) as u32) << 6) | ((b1 & 0x3F) as u32) <= 0x7ff) by (bit_vector);
        assert(vstd::utf8::not_overlong_encoding(code, 2));
    } else if vstd::utf8::is_leading_byte_width_3(b0) {
        let b1 = rest[1];
        let b2 = rest[2];
        assert(code == vstd::utf8::codepoint_width_3(b0, b1, b2));
        assert((((b0 & 0x0F) as u32) << 12) | (((b1 & 0x3F) as u32) << 6) | ((b2 & 0x3F) as u32)
            <= 0xffff) by (bit_vector);
        assert(vstd::utf8::not_overlong_encoding(code, 3));
        assert(vstd::utf8::not_surrogate(code));
    } else {
        let b1 = rest[1];
        let b2 = rest[2];
        let b3 = rest[3];
        assert(code == vstd::utf8::codepoint_width_4(b0, b1, b2, b3));
        assert(vstd::utf8::not_overlong_encoding(code, 4));
    }
    assert((code as char) as u32 == code);
}

/// An ASCII byte always decodes, one byte wide, to the character with its
/// code.
pub proof fn lemma_ascii_byte_decodes(bytes: Seq<u8>, pos: int)
    requires
        0 <= pos < bytes.len(),
        bytes[pos] < 0x80,
    ensures
        decode_ok(bytes, pos),
        decoded_len(bytes, pos) == 1,
        decoded_char(bytes, pos) as u32 == bytes[pos] as u32,
{
    let rest = bytes.subrange(pos, bytes.len() as int);
    let b = rest[0];
    assert(b == bytes[pos]);
    assert(vstd::utf8::is_leading_byte_width_1(b));
    assert((b & 0x7F) as u32 == b as u32 && (b as u32) < 0x80) by (bit_vector)
        requires
            b < 0x80,
    ;
    assert(vstd::utf8::decode_first_codepoint(rest) == vstd::utf8::codepoint_width_1(b));
    assert(valid_first_scalar(rest));
    lemma_decode_ok_is_scalar(bytes, pos);
}

/// A decoded sequence is one byte wide exactly when its character is ASCII,
/// and then the byte is the character's code.
pub proof fn lemma_ascii_decode(bytes: Seq<u8>, pos: int)
    requires
        decode_ok(bytes, pos),
    ensures
        (bytes[pos] < 0x80) <==> (decoded_char(bytes, pos) as u32) < 0x80,
        bytes[pos] < 0x80 ==> decoded_len(bytes, pos) == 1 && decoded_char(bytes, pos) as u32
            == bytes[pos] as u32,
{
    let rest = bytes.subrange(pos, bytes.len() as int);
    let code = decode_first_codepoint(rest);
    lemma_decode_ok_is_scalar(bytes, pos);
    if bytes[pos] < 0x80 {
        assert(vstd::utf8::is_leading_byte_width_1(rest[0]));
        assert(code == vstd::utf8::codepoint_width_1(rest[0]));
        let b = rest[0];
        assert((b & 0x7F) as u32 == b as u32 && (b as u32) < 0x80) by (bit_vector)
            requires
                b < 0x80,
        ;
    } else {
        assert(!vstd::utf8::is_leading_byte_width_1(rest[0]));
        assert(vstd::utf8::not_overlong_encoding(code, length_of_first_codepoint(rest)));
        assert(code >= 0x80);
    }
}

/// The scalar encoding of an ASCII character is its single byte; that of
/// any other character holds only bytes with the high bit set.
pub proof fn lemma_encode_scalar_ascii(c: char)
    ensures
        (c as u32) < 0x80 ==> encode_scalar(c as u32) == seq![c as u8],
        (c as u32) >= 0x80 ==> forall|k: int|
            0 <= k < encode_scalar(c as u32).len() ==> #[trigger] encode_scalar(c as u32)[k]
                >= 0x80,
{
    broadcast use vstd::utf8::group_utf8_lib;

    let u = c as u32;
    if u < 0x80 {
        assert(((u & 0x7F) as u8) as u32 == u) by (bit_vector)
            requires
                u < 0x80,
        ;
        assert((c as u8) as u32 == u);
        assert(vstd::utf8::leading_byte_width_1(u) == c as u8);
        assert(encode_scalar(u) =~= seq![c as u8]);
    } else {
        assert(vstd::utf8::leading_byte_width_2(u) >= 0x80) by (bit_vector);
        assert(vstd::utf8::leading_byte_width_3(u) >= 0x80) by (bit_vector);
        assert(vstd::utf8::leading_byte_width_4(u) >= 0x80) by (bit_vector);
        assert(vstd::utf8::last_continuation_byte(u) >= 0x80) by (bit_vector);
        assert(vstd::utf8::second_last_continuation_byte(u) >= 0x80) by (bit_vector);
        assert(vstd::utf8::third_last_continuation_byte(u) >= 0x80) by (bit_vector);
    }
}

/// Peeking `n` places ahead of a decodable position is peeking `n - 1`
/// places ahead of the following one.
pub proof fn lemma_peek_ahead_step(bytes: Seq<u8>, pos: int, n: nat)
    requires
        decode_ok(bytes, pos),
        n >= 1,
    ensures
        spec_peek_ahead(bytes, pos, n) == spec_peek_ahead(
            bytes,
            pos + decoded_len(bytes, pos),
            (n - 1) as nat,
        ),
{
}

/// Decoding the concatenation of two valid UTF-8 sequences decodes each in
/// turn.
pub proof fn lemma_decode_utf8_concat(a: Seq<u8>, b: Seq<u8>)
    requires
        vstd::utf8::valid_utf8(a),
        vstd::utf8::valid_utf8(b),
    ensures
        vstd::utf8::valid_utf8(a + b),
        vstd::utf8::decode_utf8(a + b) == vstd::utf8::decode_utf8(a) + vstd::utf8::decode_utf8(b),
{
    if b.len() == 0 {
        assert(a + b =~= a);
        assert(vstd::utf8::decode_utf8(a) + vstd::utf8::decode_utf8(b) =~= vstd::utf8::decode_utf8(
            a,
        ));
    } else {
        let ab = a + b;
        vstd::utf8::valid_utf8_concat(a, b);
        assert(ab[a.len() as int] == b[0]);
        assert(vstd::utf8::valid_first_scalar(b));
        assert(!vstd::utf8::is_continuation_byte(b[0]));
        vstd::utf8::is_char_boundary_iff_not_is_continuation_byte(ab, a.len() as int);
        assert(vstd::utf8::is_char_boundary(ab, a.len() as int));
        vstd::utf8::decode_utf8_split(ab, a.len() as int);
        assert(ab.subrange(0, a.len() as int) =~= a);
        assert(ab.subrange(a.len() as int, ab.len() as int) =~= b);
    }
}

/// The sequence of `n` characters decoded starting at `pos`, when all `n`
/// decode; `None` otherwise.
pub open spec fn spec_chars_at(bytes: Seq<u8>, pos: int, n: nat) -> Option<Seq<char>>
    decreases n,
{
    if n == 0 {
        Some(Seq::<char>::empty())
    } else if !decode_ok(bytes, pos) {
        None
    } else {
        match spec_chars_at(bytes, pos + decoded_len(bytes, pos), (n - 1) as nat) {
            Some(rest) => Some(seq![decoded_char(bytes, pos)] + rest),
            None => None,
        }
    }
}

/// Unfolds one step of `spec_chars_at` at a decodable position.
pub proof fn lemma_chars_at_step(bytes: Seq<u8>, pos: int, n: nat)
    requires
        n >= 1,
        spec_chars_at(bytes, pos, n) is Some,
    ensures
        decode_ok(bytes, pos),
        spec_chars_at(bytes, pos + decoded_len(bytes, pos), (n - 1) as nat) is Some,
        spec_chars_at(bytes, pos, n) == Some(
            seq![decoded_char(bytes, pos)] + spec_chars_at(
                bytes,
                pos + decoded_len(bytes, pos),
                (n - 1) as nat,
            )->Some_0,
        ),
        spec_chars_at(bytes, pos, n)->Some_0.len() == n,
        spec_chars_at(bytes, pos, n)->Some_0[0] == decoded_char(bytes, pos),
        spec_chars_at(bytes, pos, n)->Some_0.subrange(1, n as int) == spec_chars_at(
            bytes,
            pos + decoded_len(bytes, pos),
            (n - 1) as nat,
        )->Some_0,
    decreases n,
{
    let rest = spec_chars_at(bytes, pos + decoded_len(bytes, pos), (n - 1) as nat)->Some_0;
    if n > 1 {
        lemma_chars_at_step(bytes, pos + decoded_len(bytes, pos), (n - 1) as nat);
    }
    assert((seq![decoded_char(bytes, pos)] + rest).subrange(1, n as int) =~= rest);
}

/// The characters visible by repeated peeking are the characters decoded in
/// sequence.
pub proof fn lemma_chars_at_from_peeks(bytes: Seq<u8>, pos: int, n: nat)
    requires
        n >= 1,
        spec_peek_ahead(bytes, pos, (n - 1) as nat) is Some,
    ensures
        spec_chars_at(bytes, pos, n) is Some,
        spec_chars_at(bytes, pos, n)->Some_0.len() == n,
        forall|i: int|
            0 <= i < n ==> #[trigger] spec_peek_ahead(bytes, pos, i as nat) is Some
                && spec_chars_at(bytes, pos, n)->Some_0[i] == spec_peek_ahead(
                bytes,
                pos,
                i as nat,
            )->Some_0,
    decreases n,
{
    assert(decode_ok(bytes, pos));
    let width = decoded_len(bytes, pos);
    if n == 1 {
        assert(spec_chars_at(bytes, pos + width, 0) == Some(Seq::<char>::empty()));
        let cs = spec_chars_at(bytes, pos, n)->Some_0;
        assert(cs =~= seq![decoded_char(bytes, pos)]);
        assert forall|i: int| 0 <= i < n implies #[trigger] spec_peek_ahead(
            bytes,
            pos,
            i as nat,
        ) is Some && cs[i] == spec_peek_ahead(bytes, pos, i as nat)->Some_0 by {
            assert(i == 0);
        }
    } else {
        lemma_peek_ahead_step(bytes, pos, (n - 1) as nat);
        lemma_chars_at_from_peeks(bytes, pos + width, (n - 1) as nat);
        let rest = spec_chars_at(bytes, pos + width, (n - 1) as nat)->Some_0;
        let cs = spec_chars_at(bytes, pos, n)->Some_0;
        assert(cs == seq![decoded_char(bytes, pos)] + rest);
        assert forall|i: int| 0 <= i < n implies #[trigger] spec_peek_ahead(
            bytes,
            pos,
            i as nat,
        ) is Some && cs[i] == spec_peek_ahead(bytes, pos, i as nat)->Some_0 by {
            if i == 0 {
                assert(spec_peek_ahead(bytes, pos, 0) == Some(decoded_char(bytes, pos)));
                assert(cs[0] == decoded_char(bytes, pos));
            } else {
                lemma_peek_ahead_step(bytes, pos, i as nat);
                assert(spec_peek_ahead(bytes, pos, i as nat) == spec_peek_ahead(
                    bytes,
                    pos + width,
                    (i - 1) as nat,
                ));
                assert(cs[i] == rest[i - 1]);
            }
        }
    }
}

/// When `n` characters decode in sequence at `pos`, peeking any of them
/// succeeds.
pub proof fn lemma_chars_at_gives_peeks(bytes: Seq<u8>, pos: int, n: nat)
    requires
        n >= 1,
        spec_chars_at(bytes, pos, n) is Some,
    ensures
        spec_peek_ahead(bytes, pos, (n - 1) as nat) is Some,
    decreases n,
{
    lemma_chars_at_step(bytes, pos, n);
    if n > 1 {
        lemma_chars_at_gives_peeks(bytes, pos + decoded_len(bytes, pos), (n - 1) as nat);
        lemma_peek_ahead_step(bytes, pos, (n - 1) as nat);
    }
}

/// Peeking fewer places ahead succeeds whenever peeking further does.
pub proof fn lemma_peek_ahead_mono(bytes: Seq<u8>, pos: int, m: nat, n: nat)
    requires
        m <= n,
        spec_peek_ahead(bytes, pos, n) is Some,
    ensures
        spec_peek_ahead(bytes, pos, m) is Some,
    decreases n,
{
    if m < n {
        lemma_peek_ahead_step(bytes, pos, n);
        if m == 0 {
        } else {
            lemma_peek_ahead_mono(bytes, pos + decoded_len(bytes, pos), (m - 1) as nat, (n
                - 1) as nat);
            lemma_peek_ahead_step(bytes, pos, m);
        }
    }
}

pub struct Utf8Cursor {
    pub input: Vec<u8>,
    pub pos: usize,
    pub last_width: usize,
}

impl Utf8Cursor {
    /// The cursor's offset never passes the end of the input, and the
    /// recorded width of the last `advance` never exceeds the offset.
    pub open spec fn wf(self) -> bool {
        &&& self.pos <= self.input.len()
        &&& self.last_width <= self.pos
    }

    pub fn new(s: &str) -> (r: Utf8Cursor)
        ensures
            r.input@ == s.spec_bytes(),
            r.pos == 0,
            r.wf(),
    {
        Utf8Cursor { input: s.as_bytes_vec(), pos: 0, last_width: 0 }
    }

    pub fn from_string(s: String) -> (r: Utf8Cursor)
        ensures
            r.input@ == vstd::utf8::encode_utf8(s@),
            r.pos == 0,
            r.wf(),
    {
        Utf8Cursor { input: s.as_str().as_bytes_vec(), pos: 0, last_width: 0 }
    }

    pub fn eof(&self) -> (r: bool)
        ensures
            r == (self.pos >= self.input.len()),
    {
        self.pos >= self.input.len()
    }

    /// Returns current byte offset.
    pub fn pos(&self) -> (r: usize)
        ensures
            r == self.pos,
    {
        self.pos
    }

    /// Decodes the code point starting at byte offset `pos` together with its
    /// byte width, without moving the cursor.
    pub fn peek_char_manual_at(&self, pos: usize) -> (r: Option<(char, usize)>)
        ensures
            r is Some <==> decode_ok(self.input@, pos as int),
            (r matches Some(p) ==> p.0 == decoded_char(self.input@, pos as int)
                && p.1 == decoded_len(self.input@, pos as int)
                && pos + p.1 <= self.input.len()
                && 1 <= p.1 <= 4),
    {
        let ghost rest = self.input@.subrange(pos as int, self.input@.len() as int);
        if pos >= self.input.len() {
            return None;
        }
        let b0 = self.input[pos];
        let rem = self.input.len() - pos;
        assert(b0 == rest[0]);
        let (code, width): (u32, usize) = if b0 & 0x80 == 0 {
            let code = (b0 & 0x7F) as u32;
            assert(code <= 0x7f) by (bit_vector)
                requires
                    code == (b0 & 0x7F) as u32,
            ;
            (code, 1)
        } else if b0 & 0xE0 == 0xC0 {
            // 2 bytes, 110xxxxx 10xxxxxx
            if rem < 2 {
                return None;
            }
            let b1 = self.input[pos + 1];
            assert(b1 == rest[1]);
            if b1 & 0xC0 != 0x80 {
                return None;
            }
            let code = (((b0 & 0x1F) as u32) << 6) | ((b1 & 0x3F) as u32);
            assert(code <= 0x7ff) by (bit_vector)
                requires
                    code == (((b0 & 0x1F) as u32) << 6) | ((b1 & 0x3F) as u32),
            ;
            if code < 0x80 {
                // overlong encoding
                return None;
            }
            (code, 2)
        } else if b0 & 0xF0 == 0xE0 {
            // 3 bytes, 1110xxxx 10xxxxxx 10xxxxxx
            if rem < 3 {
                return None;
            }
            let b1 = self.input[pos + 1];
            let b2 = self.input[pos + 2];
            assert(b1 == rest[1] && b2 == rest[2]);
            if b1 & 0xC0 != 0x80 || b2 & 0xC0 != 0x80 {
                return None;
            }
            let code = (((b0 & 0x0F) as u32) << 12) | (((b1 & 0x3F) as u32) << 6) | ((b2
                & 0x3F) as u32);
            assert(code <= 0xffff) by (bit_vector)
                requires
                    code == (((b0 & 0x0F) as u32) << 12) | (((b1 & 0x3F) as u32) << 6) | ((b2
                        & 0x3F) as u32),
            ;
            if code < 0x800 {
                // overlong encoding
                return None;
            }
            (code, 3)
        } else if b0 & 0xF8 == 0xF0 {
            // 4 bytes, 11110xxx 10xxxxxx 10xxxxxx 10xxxxxx
            if rem < 4 {
                return None;
            }
            let b1 = self.input[pos + 1];
            let b2 = self.input[pos + 2];
            let b3 = self.input[pos + 3];
            assert(b1 == rest[1] && b2 == rest[2] && b3 == rest[3]);
            if b1 & 0xC0 != 0x80 || b2 & 0xC0 != 0x80 || b3 & 0xC0 != 0x80 {
                return None;
            }
            let code = (((b0 & 0x07) as u32) << 18) | (((b1 & 0x3F) as u32) << 12) | (((b2
                & 0x3F) as u32) << 6) | ((b3 & 0x3F) as u32);
            if code < 0x10000 {
                // overlong encoding
                return None;
            }
            (code, 4)
        } else {
            return None;
        };
        assert(valid_leading_and_continuation_bytes_first_codepoint(rest));
        assert(code == decode_first_codepoint(rest));
        assert(width == length_of_first_codepoint(rest));
        match char::from_u32(code) {
            Some(c) => {
                proof {
                    vstd::utf8::char_u32_cast(c, code);
                }
                Some((c, width))
            },
            None => None,
        }
    }

    /// Peeks the current code point without advancing.
    pub fn peek(&self) -> (r: Option<char>)
        ensures
            r is Some <==> decode_ok(self.input@, self.pos as int),
            (r matches Some(c) ==> c == decoded_char(self.input@, self.pos as int)),
    {
        match self.peek_char_manual_at(self.pos) {
            Some(p) => Some(p.0),
            None => None,
        }
    }

    /// Peeks the `n`-th code point ahead (`n == 0` is `peek`).
    pub fn peek_n(&self, n: usize) -> (r: Option<char>)
        ensures
            r == spec_peek_ahead(self.input@, self.pos as int, n as nat),
    {
        self.peek_ahead_at(self.pos, n)
    }

    fn peek_ahead_at(&self, pos: usize, n: usize) -> (r: Option<char>)
        ensures
            r == spec_peek_ahead(self.input@, pos as int, n as nat),
        decreases n,
    {
        match self.peek_char_manual_at(pos) {
            None => None,
            Some((c, width)) => {
                if n == 0 {
                    Some(c)
                } else {
                    self.peek_ahead_at(pos + width, n - 1)
                }
            },
        }
    }

    /// Advances past the next code point and returns it.
    pub fn advance(&mut self) -> (r: Option<char>)
        requires
            old(self).wf(),
        ensures
            final(self).wf(),
            final(self).input == old(self).input,
            r is Some <==> decode_ok(old(self).input@, old(self).pos as int),
            (r matches Some(c) ==> {
                &&& c == decoded_char(old(self).input@, old(self).pos as int)
                &&& final(self).pos == old(self).pos + decoded_len(
                    old(self).input@,
                    old(self).pos as int,
                )
                &&& final(self).last_width == decoded_len(old(self).input@, old(self).pos as int)
                &&& old(self).pos < final(self).pos <= old(self).input.len()
            }),
            (r is None ==> *final(self) == *old(self)),
    {
        match self.peek_char_manual_at(self.pos) {
            Some((c, width)) => {
                self.pos = self.pos + width;
                self.last_width = width;
                Some(c)
            },
            None => None,
        }
    }

    /// Resets back to a previous position (manual rewind).
    pub fn reset_to(&mut self, pos: usize)
        requires
            pos <= old(self).input.len(),
        ensures
            final(self).wf(),
            final(self).input == old(self).input,
            final(self).pos == pos,
            final(self).last_width == 0,
    {
        self.pos = pos;
        self.last_width = 0;
    }

    /// Rewinds the last successful `advance` by the width of its decoding.
    /// May only follow an `advance` that returned a code point.
    pub fn undo(&mut self)
        requires
            old(self).wf(),
            old(self).last_width > 0,
        ensures
            final(self).wf(),
            final(self).input == old(self).input,
            final(self).pos == old(self).pos - old(self).last_width,
            final(self).last_width == 0,
    {
        self.pos = self.pos - self.last_width;
        self.last_width = 0;
    }

    /// Copies the bytes of the half-open range `[from, to)` of the input.
    pub fn slice(&self, from: usize, to: usize) -> (r: Vec<u8>)
        requires
            from <= to <= self.input.len(),
        ensures
            r@ == self.input@.subrange(from as int, to as int),
    {
        let mut out: Vec<u8> = Vec::new();
        let mut i: usize = from;
        while i < to
            invariant
                from <= i <= to <= self.input.len(),
                out@ == self.input@.subrange(from as int, i as int),
            decreases to - i,
        {
            out.push(self.input[i]);
            assert(out@ =~= self.input@.subrange(from as int, i as int + 1));
            i = i + 1;
        }
        out
    }
}

} // verus!
