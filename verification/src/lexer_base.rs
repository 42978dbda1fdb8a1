//! The scanner: its state, the character-consuming helpers, and the main
//! dispatch loop that classifies each position into one token category.

use vstd::prelude::*;
use vstd::string::StrSliceExecFns;
use vstd::string::StringSliceAdditionalSpecFns;
use crate::lexer_errors::LexerError;
use crate::lexer_errors::LexerErrorKind;
use crate::lexer_errors::Span;
use crate::tables::OperatorEnum;
use crate::tables::spec_keyword;
use crate::tables::spec_operator;
use crate::text::push_char;
use crate::tokens::CommentKind;
use crate::tokens::StringKind;
use crate::tokens::Token;
use crate::tokens::TokenKind;
use crate::tokens::kind_wf;
use crate::tokens::spec_is_white_space;
use crate::tokens::spec_is_line_break;
use crate::tokens::token_wf;
use crate::tokens::tokens_chain;
use crate::utf8_cursor::Utf8Cursor;
use crate::utf8_cursor::decode_ok;
use crate::utf8_cursor::decoded_char;
use crate::utf8_cursor::decoded_len;
use crate::utf8_cursor::lemma_decoded_bytes;
use crate::utf8_cursor::lemma_encode_utf8_push;
use vstd::utf8::encode_utf8;

verus! {

/// The scanner.  `tokens` is filled once by a top-level scan; the counters
/// give the 0-based line and column of the position being scanned.
pub struct Lexer {
    pub tokens: Vec<Token>,
    pub original_file_name: String,
    pub current_line: usize,
    pub current_column: usize,
    /// When set, legacy-octal numeric literals and legacy-octal escape
    /// sequences are rejected with `LegacyOctalInStrictMode`.
    pub strict_mode: bool,
    /// When cleared, whitespace, newline and comment tokens are dropped from
    /// the scan's output.
    pub preserve_trivia: bool,
}

/// The scanner's counters never run ahead of the cursor: each line or column
/// step consumes at least one byte.
pub open spec fn scan_ok(lx: Lexer, c: Utf8Cursor) -> bool {
    &&& c.wf()
    &&& lx.current_line <= c.pos
    &&& lx.current_column <= c.pos
}

/// The fields of the scanner that the consuming helpers never touch.
pub open spec fn same_but_counters(a: Lexer, b: Lexer) -> bool {
    &&& a.tokens == b.tokens
    &&& a.original_file_name == b.original_file_name
    &&& a.strict_mode == b.strict_mode
    &&& a.preserve_trivia == b.preserve_trivia
}

/// Whitespace, line terminators and comments: tokens preserved only for
/// losslessness.
pub open spec fn spec_is_trivia(k: TokenKind) -> bool {
    match k {
        TokenKind::Whitespace => true,
        TokenKind::Newline => true,
        TokenKind::CommentLine(_) => true,
        TokenKind::CommentBlock(_) => true,
        _ => false,
    }
}

/// The predicates the scanner reads runs of characters under.
pub enum CharPred {
    /// Characters of a whitespace run.
    WhiteSpaceRun,
    /// Characters of a line comment: everything up to a line terminator.
    LineCommentBody,
    /// Characters of a block comment body: everything up to the closing
    /// `*/`.
    BlockCommentBody,
}

/// When a run under the predicate continues at a character (with the next
/// one visible for the two-character terminator of a block comment).
pub open spec fn char_pred_holds(p: CharPred, c: char, next: Option<char>) -> bool {
    match p {
        CharPred::WhiteSpaceRun => spec_is_white_space(c),
        CharPred::LineCommentBody => !spec_is_line_break(c),
        CharPred::BlockCommentBody => !(c == '*' && next == Some('/')),
    }
}

/// What the predicate guarantees of every consumed character on its own.
pub open spec fn char_pred_unary(p: CharPred, c: char) -> bool {
    match p {
        CharPred::WhiteSpaceRun => spec_is_white_space(c),
        CharPred::LineCommentBody => !spec_is_line_break(c),
        CharPred::BlockCommentBody => true,
    }
}

/// Whether the `k` code points at `pos` decode and spell an entry of the
/// operator table.
pub open spec fn op_match_at(input: Seq<u8>, pos: int, k: nat) -> bool {
    crate::utf8_cursor::spec_chars_at(input, pos, k) matches Some(cs) && spec_operator(cs) is Some
}

impl Lexer {
    pub fn new() -> (r: Lexer)
        ensures
            r.tokens@ == Seq::<Token>::empty(),
            r.original_file_name@ == Seq::<char>::empty(),
            r.current_line == 0,
            r.current_column == 0,
            r.strict_mode == false,
            r.preserve_trivia == true,
    {
        Lexer {
            tokens: Vec::new(),
            original_file_name: String::new(),
            current_line: 0,
            current_column: 0,
            strict_mode: false,
            preserve_trivia: true,
        }
    }

    /// Steps the line and column counters over one consumed character: a
    /// line terminator starts the next line, anything else advances the
    /// column.
    pub fn update_current_position(&mut self, ch: char)
        requires
            old(self).current_line < usize::MAX,
            old(self).current_column < usize::MAX,
        ensures
            same_but_counters(*old(self), *final(self)),
            spec_is_line_break(ch) ==> final(self).current_line == old(self).current_line + 1
                && final(self).current_column == 0,
            !spec_is_line_break(ch) ==> final(self).current_line == old(self).current_line
                && final(self).current_column == old(self).current_column + 1,
    {
        if Token::is_line_break(ch) {
            self.current_line = self.current_line + 1;
            self.current_column = 0;
        } else {
            self.current_column = self.current_column + 1;
        }
    }

    /// Consumes the character under the cursor, steps the counters, appends
    /// the character to `s`, and keeps the consumed byte range in step with
    /// the UTF-8 encoding of `s`.
    fn take_char(&mut self, reader: &mut Utf8Cursor, s: &mut String, from: Ghost<int>) -> (c: char)
        requires
            scan_ok(*old(self), *old(reader)),
            decode_ok(old(reader).input@, old(reader).pos as int),
            0 <= from@ <= old(reader).pos,
            old(reader).input@.subrange(from@, old(reader).pos as int) == encode_utf8(old(s)@),
        ensures
            scan_ok(*final(self), *final(reader)),
            same_but_counters(*old(self), *final(self)),
            final(reader).input == old(reader).input,
            c == decoded_char(old(reader).input@, old(reader).pos as int),
            final(s)@ == old(s)@.push(c),
            final(reader).pos == old(reader).pos + decoded_len(
                old(reader).input@,
                old(reader).pos as int,
            ),
            old(reader).pos < final(reader).pos <= final(reader).input.len(),
            final(reader).input@.subrange(from@, final(reader).pos as int) == encode_utf8(
                final(s)@,
            ),
    {
        let ghost pos0 = reader.pos as int;
        let c = reader.advance().unwrap();
        self.update_current_position(c);
        push_char(s, c);
        proof {
            lemma_decoded_bytes(reader.input@, pos0);
            lemma_encode_utf8_push(old(s)@, c);
            assert(reader.input@.subrange(from@, reader.pos as int) =~= reader.input@.subrange(
                from@,
                pos0,
            ) + reader.input@.subrange(pos0, reader.pos as int));
        }
        c
    }

    /// Consumes one character and steps the counters.
    pub(crate) fn skip_char(&mut self, reader: &mut Utf8Cursor) -> (c: char)
        requires
            scan_ok(*old(self), *old(reader)),
            decode_ok(old(reader).input@, old(reader).pos as int),
        ensures
            scan_ok(*final(self), *final(reader)),
            same_but_counters(*old(self), *final(self)),
            final(reader).input == old(reader).input,
            c == decoded_char(old(reader).input@, old(reader).pos as int),
            final(reader).pos == old(reader).pos + decoded_len(
                old(reader).input@,
                old(reader).pos as int,
            ),
            old(reader).pos < final(reader).pos <= final(reader).input.len(),
    {
        let c = reader.advance().unwrap();
        self.update_current_position(c);
        c
    }

    /// Consumes one ASCII character, steps the counters, and appends its
    /// byte to `out`.
    pub(crate) fn take_byte(&mut self, reader: &mut Utf8Cursor, out: &mut Vec<u8>) -> (c: char)
        requires
            scan_ok(*old(self), *old(reader)),
            decode_ok(old(reader).input@, old(reader).pos as int),
            (decoded_char(old(reader).input@, old(reader).pos as int) as u32) < 0x80,
        ensures
            scan_ok(*final(self), *final(reader)),
            same_but_counters(*old(self), *final(self)),
            final(reader).input == old(reader).input,
            c == decoded_char(old(reader).input@, old(reader).pos as int),
            (c as u32) < 0x80,
            old(reader).input@[old(reader).pos as int] == c as u8,
            final(out)@ == old(out)@.push(c as u8),
            final(reader).pos == old(reader).pos + 1,
    {
        proof {
            crate::utf8_cursor::lemma_ascii_decode(reader.input@, reader.pos as int);
        }
        let c = reader.advance().unwrap();
        self.update_current_position(c);
        let b = #[verifier::truncate] (c as u8);
        proof {
            assert(b as u32 == c as u32);
        }
        out.push(b);
        c
    }

    /// Reads a maximal run of characters satisfying the predicate and
    /// returns it decoded; the consumed bytes are exactly the UTF-8
    /// encoding of the result.
    pub fn read_while(&mut self, reader: &mut Utf8Cursor, pred: CharPred) -> (r: String)
        requires
            scan_ok(*old(self), *old(reader)),
        ensures
            scan_ok(*final(self), *final(reader)),
            same_but_counters(*old(self), *final(self)),
            final(reader).input == old(reader).input,
            old(reader).pos <= final(reader).pos,
            final(reader).input@.subrange(old(reader).pos as int, final(reader).pos as int)
                == encode_utf8(r@),
            forall|i: int| 0 <= i < r@.len() ==> char_pred_unary(pred, #[trigger] r@[i]),
            final(reader).pos == old(reader).pos ==> !(decode_ok(
                old(reader).input@,
                old(reader).pos as int,
            ) && char_pred_holds(
                pred,
                decoded_char(old(reader).input@, old(reader).pos as int),
                crate::utf8_cursor::spec_peek_ahead(old(reader).input@, old(reader).pos as int, 1),
            )),
            !(decode_ok(final(reader).input@, final(reader).pos as int) && char_pred_holds(
                pred,
                decoded_char(final(reader).input@, final(reader).pos as int),
                crate::utf8_cursor::spec_peek_ahead(
                    final(reader).input@,
                    final(reader).pos as int,
                    1,
                ),
            )),
    {
        let ghost from = reader.pos as int;
        let mut buffer = String::new();
        proof {
            assert(reader.input@.subrange(from, from) =~= encode_utf8(buffer@));
        }
        loop
            invariant
                scan_ok(*self, *reader),
                same_but_counters(*old(self), *self),
                reader.input == old(reader).input,
                from <= reader.pos,
                old(reader).pos == from,
                reader.input@.subrange(from, reader.pos as int) == encode_utf8(buffer@),
                forall|i: int| 0 <= i < buffer@.len() ==> char_pred_unary(pred, #[trigger] buffer@[i]),
                reader.pos == from ==> buffer@.len() == 0,
            decreases reader.input@.len() - reader.pos,
        {
            let c = match reader.peek() {
                Some(c) => c,
                None => {
                    return buffer;
                },
            };
            let c_next = reader.peek_n(1);
            let keep = match pred {
                CharPred::WhiteSpaceRun => Token::is_white_space(c),
                CharPred::LineCommentBody => !Token::is_line_break(c),
                CharPred::BlockCommentBody => !(c == '*' && c_next == Some('/')),
            };
            if !keep {
                return buffer;
            }
            let _taken = self.take_char(reader, &mut buffer, Ghost(from));
        }
    }

    /// Reads everything up to (but not including) the next line terminator.
    pub fn read_while_line_break(&mut self, reader: &mut Utf8Cursor) -> (r: String)
        requires
            scan_ok(*old(self), *old(reader)),
        ensures
            scan_ok(*final(self), *final(reader)),
            same_but_counters(*old(self), *final(self)),
            final(reader).input == old(reader).input,
            old(reader).pos <= final(reader).pos,
            final(reader).input@.subrange(old(reader).pos as int, final(reader).pos as int)
                == encode_utf8(r@),
            forall|i: int| 0 <= i < r@.len() ==> !spec_is_line_break(#[trigger] r@[i]),
            final(reader).pos == old(reader).pos ==> !(decode_ok(
                old(reader).input@,
                old(reader).pos as int,
            ) && !spec_is_line_break(decoded_char(old(reader).input@, old(reader).pos as int))),
            !(decode_ok(final(reader).input@, final(reader).pos as int) && !spec_is_line_break(
                decoded_char(final(reader).input@, final(reader).pos as int),
            )),
    {
        self.read_while(reader, CharPred::LineCommentBody)
    }

    /// Classifies a completed word: a keyword token, an operator token, or
    /// nothing for a plain identifier.  The word buffer is cleared.
    pub fn process_buffer(
        buffer: &mut String,
        start: usize,
        current_line: usize,
        current_column: usize,
    ) -> (r: Option<Token>)
        requires
            start + encode_utf8(old(buffer)@).len() <= usize::MAX,
        ensures
            final(buffer)@.len() == 0,
            r is Some <==> (spec_keyword(old(buffer)@) is Some || spec_operator(old(buffer)@)
                is Some),
            r matches Some(t) ==> {
                &&& t.start == start
                &&& t.end == start + encode_utf8(old(buffer)@).len()
                &&& t.lexeme@ == encode_utf8(old(buffer)@)
                &&& t.line == current_line
                &&& t.column == current_column
                &&& t.kind == (match spec_operator(old(buffer)@) {
                    Some(op) => TokenKind::Operator(op),
                    None => TokenKind::Keyword(spec_keyword(old(buffer)@)->Some_0),
                })
                &&& kind_wf(t.kind, t.lexeme@)
            },
    {
        let kw = Token::get_keyword(buffer);
        let op = Token::get_operator(buffer);
        let lexeme = buffer.as_str().as_bytes_vec();
        let end = start + buffer.as_str().len();
        let mut token: Option<Token> = None;
        if let Some(op) = op {
            proof {
                reveal(crate::tokens::kind_wf);
                crate::tables::lemma_operator_text(buffer@);
            }
            token = Some(
                Token {
                    kind: TokenKind::Operator(op),
                    lexeme,
                    line: current_line,
                    column: current_column,
                    start,
                    end,
                },
            );
        } else if let Some(kw) = kw {
            proof {
                reveal(crate::tokens::kind_wf);
                crate::tables::lemma_keyword_text(buffer@);
            }
            token = Some(
                Token {
                    kind: TokenKind::Keyword(kw),
                    lexeme,
                    line: current_line,
                    column: current_column,
                    start,
                    end,
                },
            );
        }
        *buffer = String::new();
        token
    }

    /// Reads one identifier word (the cursor stands on an identifier-start
    /// character) and classifies it as a keyword or a plain identifier.
    fn read_identifier(&mut self, reader: &mut Utf8Cursor) -> (t: Token)
        requires
            scan_ok(*old(self), *old(reader)),
            decode_ok(old(reader).input@, old(reader).pos as int),
        ensures
            scan_ok(*final(self), *final(reader)),
            same_but_counters(*old(self), *final(self)),
            final(reader).input == old(reader).input,
            token_wf(t, old(reader).input@),
            t.start == old(reader).pos,
            t.end == final(reader).pos,
            old(reader).pos < final(reader).pos,
    {
        let ghost input = reader.input@;
        let ghost pos0 = reader.pos as int;
        let start = reader.pos();
        let line0 = self.current_line;
        let col0 = self.current_column;
        let mut name = String::new();
        proof {
            assert(input.subrange(pos0, pos0) =~= encode_utf8(name@));
        }
        let _first = self.take_char(reader, &mut name, Ghost(pos0));
        loop
            invariant
                scan_ok(*self, *reader),
                same_but_counters(*old(self), *self),
                reader.input == old(reader).input,
                input == reader.input@,
                pos0 == old(reader).pos,
                start == old(reader).pos,
                line0 <= pos0,
                col0 <= pos0,
                pos0 < reader.pos,
                name@.len() >= 1,
                input.subrange(pos0, reader.pos as int) == encode_utf8(name@),
            decreases input.len() - reader.pos,
        {
            let more = match reader.peek() {
                Some(c) => Token::is_valid_identifier_continue(c),
                None => false,
            };
            if !more {
                break ;
            }
            let _taken = self.take_char(reader, &mut name, Ghost(pos0));
        }
        let end = reader.pos();
        let mut word = name.clone();
        proof {
            assert(start + encode_utf8(word@).len() == end as int);
        }
        let classified = Lexer::process_buffer(&mut word, start, line0, col0);
        match classified {
            Some(t) => {
                proof {
                    assert(t.lexeme@ == input.subrange(pos0, end as int));
                    assert(token_wf(t, input));
                }
                t
            },
            None => {
                let lexeme = reader.slice(start, end);
                let t = Token {
                    kind: TokenKind::Identifier(name),
                    lexeme,
                    start,
                    end,
                    line: line0,
                    column: col0,
                };
                proof {
                    reveal(crate::tokens::kind_wf);
                    assert(token_wf(t, input));
                }
                t
            },
        }
    }

    /// Reads one punctuator by maximal munch: the longest entry of the
    /// operator table among the next four code points wins.
    fn read_operator(&mut self, reader: &mut Utf8Cursor) -> (r: Result<Token, LexerError>)
        requires
            scan_ok(*old(self), *old(reader)),
            decode_ok(old(reader).input@, old(reader).pos as int),
        ensures
            scan_ok(*final(self), *final(reader)),
            same_but_counters(*old(self), *final(self)),
            final(reader).input == old(reader).input,
            old(reader).pos <= final(reader).pos,
            (r matches Ok(t) ==> {
                &&& token_wf(t, old(reader).input@)
                &&& t.start == old(reader).pos
                &&& t.end == final(reader).pos
                &&& old(reader).pos < final(reader).pos
            }),
            (r matches Err(e) ==> e.span.start <= final(reader).pos <= e.span.end
                && e.span.end <= final(reader).input@.len()),
            (r is Ok <==> (op_match_at(old(reader).input@, old(reader).pos as int, 1)
                || op_match_at(old(reader).input@, old(reader).pos as int, 2) || op_match_at(
                old(reader).input@,
                old(reader).pos as int,
                3,
            ) || op_match_at(old(reader).input@, old(reader).pos as int, 4))),
            (r matches Err(e) ==> e.kind matches LexerErrorKind::UnexpectedToken),
            (r matches Ok(t) ==> {
                &&& t.kind matches TokenKind::Operator { .. }
                &&& {
                    let text = crate::tables::spec_operator_text(t.kind->Operator_0);
                    &&& (op_match_at(old(reader).input@, old(reader).pos as int, 4) ==> text.len()
                        == 4)
                    &&& (!op_match_at(old(reader).input@, old(reader).pos as int, 4)
                        && op_match_at(old(reader).input@, old(reader).pos as int, 3)
                        ==> text.len() == 3)
                    &&& (!op_match_at(old(reader).input@, old(reader).pos as int, 4)
                        && !op_match_at(old(reader).input@, old(reader).pos as int, 3)
                        && op_match_at(old(reader).input@, old(reader).pos as int, 2)
                        ==> text.len() == 2)
                    &&& (!op_match_at(old(reader).input@, old(reader).pos as int, 4)
                        && !op_match_at(old(reader).input@, old(reader).pos as int, 3)
                        && !op_match_at(old(reader).input@, old(reader).pos as int, 2)
                        ==> text.len() == 1)
                }
            }),
    {
        let ghost input = reader.input@;
        let ghost pos0 = reader.pos as int;
        let start = reader.pos();
        let line0 = self.current_line;
        let col0 = self.current_column;
        let c0 = reader.peek().unwrap();
        let c1 = reader.peek_n(1);
        let c2 = reader.peek_n(2);
        let c3 = reader.peek_n(3);
        if c1.is_some() && c2.is_some() && c3.is_some() {
            let mut s4 = String::new();
            push_char(&mut s4, c0);
            push_char(&mut s4, c1.unwrap());
            push_char(&mut s4, c2.unwrap());
            push_char(&mut s4, c3.unwrap());
            if let Some(op) = OperatorEnum::from_str(s4.as_str()) {
                proof {
                    crate::utf8_cursor::lemma_chars_at_from_peeks(input, pos0, 4 as nat);
                    assert(crate::utf8_cursor::spec_peek_ahead(input, pos0, 0) == Some(
                        decoded_char(input, pos0),
                    ));
                    let cs = crate::utf8_cursor::spec_chars_at(input, pos0, 4 as nat)->Some_0;
                    assert(cs =~= s4@);
                    assert(crate::utf8_cursor::spec_chars_at(input, pos0, 4 as nat) == Some(
                        s4@,
                    ));
                    crate::tables::lemma_operator_text(s4@);
                }
                return Ok(self.emit_operator(reader, op, 4, Ghost(s4@), start, line0, col0));
            }
            proof {
                if crate::utf8_cursor::spec_chars_at(input, pos0, 4) is Some {
                    crate::utf8_cursor::lemma_chars_at_from_peeks(input, pos0, 4 as nat);
                    assert(crate::utf8_cursor::spec_peek_ahead(input, pos0, 0) == Some(
                        decoded_char(input, pos0),
                    ));
                    let cs = crate::utf8_cursor::spec_chars_at(input, pos0, 4)->Some_0;
                    assert(cs =~= s4@);
                }
                assert(!op_match_at(input, pos0, 4));
            }
        } else {
            proof {
                if crate::utf8_cursor::spec_chars_at(input, pos0, 4) is Some {
                    crate::utf8_cursor::lemma_chars_at_gives_peeks(input, pos0, 4 as nat);
                    crate::utf8_cursor::lemma_peek_ahead_mono(input, pos0, 1, (4 - 1) as nat);
                    crate::utf8_cursor::lemma_peek_ahead_mono(input, pos0, 2, (4 - 1) as nat);
                    crate::utf8_cursor::lemma_peek_ahead_mono(input, pos0, 3, (4 - 1) as nat);
                    assert(false);
                }
                assert(!op_match_at(input, pos0, 4));
            }
        }
        if c1.is_some() && c2.is_some() {
            let mut s3 = String::new();
            push_char(&mut s3, c0);
            push_char(&mut s3, c1.unwrap());
            push_char(&mut s3, c2.unwrap());
            if let Some(op) = OperatorEnum::from_str(s3.as_str()) {
                proof {
                    crate::utf8_cursor::lemma_chars_at_from_peeks(input, pos0, 3 as nat);
                    assert(crate::utf8_cursor::spec_peek_ahead(input, pos0, 0) == Some(
                        decoded_char(input, pos0),
                    ));
                    let cs = crate::utf8_cursor::spec_chars_at(input, pos0, 3 as nat)->Some_0;
                    assert(cs =~= s3@);
                    assert(crate::utf8_cursor::spec_chars_at(input, pos0, 3 as nat) == Some(
                        s3@,
                    ));
                    crate::tables::lemma_operator_text(s3@);
                }
                return Ok(self.emit_operator(reader, op, 3, Ghost(s3@), start, line0, col0));
            }
            proof {
                if crate::utf8_cursor::spec_chars_at(input, pos0, 3) is Some {
                    crate::utf8_cursor::lemma_chars_at_from_peeks(input, pos0, 3 as nat);
                    assert(crate::utf8_cursor::spec_peek_ahead(input, pos0, 0) == Some(
                        decoded_char(input, pos0),
                    ));
                    let cs = crate::utf8_cursor::spec_chars_at(input, pos0, 3)->Some_0;
                    assert(cs =~= s3@);
                }
                assert(!op_match_at(input, pos0, 3));
            }
        } else {
            proof {
                if crate::utf8_cursor::spec_chars_at(input, pos0, 3) is Some {
                    crate::utf8_cursor::lemma_chars_at_gives_peeks(input, pos0, 3 as nat);
                    crate::utf8_cursor::lemma_peek_ahead_mono(input, pos0, 1, (3 - 1) as nat);
                    crate::utf8_cursor::lemma_peek_ahead_mono(input, pos0, 2, (3 - 1) as nat);
                    crate::utf8_cursor::lemma_peek_ahead_mono(input, pos0, 3, (3 - 1) as nat);
                    assert(false);
                }
                assert(!op_match_at(input, pos0, 3));
            }
        }
        if c1.is_some() {
            let mut s2 = String::new();
            push_char(&mut s2, c0);
            push_char(&mut s2, c1.unwrap());
            if let Some(op) = OperatorEnum::from_str(s2.as_str()) {
                proof {
                    crate::utf8_cursor::lemma_chars_at_from_peeks(input, pos0, 2 as nat);
                    assert(crate::utf8_cursor::spec_peek_ahead(input, pos0, 0) == Some(
                        decoded_char(input, pos0),
                    ));
                    let cs = crate::utf8_cursor::spec_chars_at(input, pos0, 2 as nat)->Some_0;
                    assert(cs =~= s2@);
                    assert(crate::utf8_cursor::spec_chars_at(input, pos0, 2 as nat) == Some(
                        s2@,
                    ));
                    crate::tables::lemma_operator_text(s2@);
                }
                return Ok(self.emit_operator(reader, op, 2, Ghost(s2@), start, line0, col0));
            }
            proof {
                if crate::utf8_cursor::spec_chars_at(input, pos0, 2) is Some {
                    crate::utf8_cursor::lemma_chars_at_from_peeks(input, pos0, 2 as nat);
                    assert(crate::utf8_cursor::spec_peek_ahead(input, pos0, 0) == Some(
                        decoded_char(input, pos0),
                    ));
                    let cs = crate::utf8_cursor::spec_chars_at(input, pos0, 2)->Some_0;
                    assert(cs =~= s2@);
                }
                assert(!op_match_at(input, pos0, 2));
            }
        } else {
            proof {
                if crate::utf8_cursor::spec_chars_at(input, pos0, 2) is Some {
                    crate::utf8_cursor::lemma_chars_at_gives_peeks(input, pos0, 2 as nat);
                    crate::utf8_cursor::lemma_peek_ahead_mono(input, pos0, 1, (2 - 1) as nat);
                    crate::utf8_cursor::lemma_peek_ahead_mono(input, pos0, 2, (2 - 1) as nat);
                    crate::utf8_cursor::lemma_peek_ahead_mono(input, pos0, 3, (2 - 1) as nat);
                    assert(false);
                }
                assert(!op_match_at(input, pos0, 2));
            }
        }
        let mut s1 = String::new();
        push_char(&mut s1, c0);
        if let Some(op) = OperatorEnum::from_str(s1.as_str()) {
            proof {
                crate::utf8_cursor::lemma_chars_at_from_peeks(input, pos0, 1 as nat);
                assert(crate::utf8_cursor::spec_peek_ahead(input, pos0, 0) == Some(
                    decoded_char(input, pos0),
                ));
                let cs = crate::utf8_cursor::spec_chars_at(input, pos0, 1 as nat)->Some_0;
                assert(cs =~= s1@);
                assert(crate::utf8_cursor::spec_chars_at(input, pos0, 1 as nat) == Some(
                    s1@,
                ));
                crate::tables::lemma_operator_text(s1@);
            }
            return Ok(self.emit_operator(reader, op, 1, Ghost(s1@), start, line0, col0));
        }
        proof {
            if crate::utf8_cursor::spec_chars_at(input, pos0, 1) is Some {
                crate::utf8_cursor::lemma_chars_at_from_peeks(input, pos0, 1 as nat);
                assert(crate::utf8_cursor::spec_peek_ahead(input, pos0, 0) == Some(
                    decoded_char(input, pos0),
                ));
                let cs = crate::utf8_cursor::spec_chars_at(input, pos0, 1)->Some_0;
                assert(cs =~= s1@);
            }
            assert(!op_match_at(input, pos0, 1));
        }
        Err(
            LexerError {
                kind: LexerErrorKind::UnexpectedToken,
                span: Span { start, end: reader.pos() },
            },
        )
    }

    /// Consumes the `width` code points of a matched punctuator and builds
    /// its token.
    fn emit_operator(
        &mut self,
        reader: &mut Utf8Cursor,
        op: OperatorEnum,
        width: usize,
        text: Ghost<Seq<char>>,
        start: usize,
        line0: usize,
        col0: usize,
    ) -> (t: Token)
        requires
            scan_ok(*old(self), *old(reader)),
            start == old(reader).pos,
            1 <= width <= 4,
            text@.len() == width,
            spec_operator(text@) == Some(op),
            crate::utf8_cursor::spec_chars_at(
                old(reader).input@,
                old(reader).pos as int,
                width as nat,
            ) == Some(text@),
        ensures
            scan_ok(*final(self), *final(reader)),
            same_but_counters(*old(self), *final(self)),
            final(reader).input == old(reader).input,
            token_wf(t, old(reader).input@),
            t.start == old(reader).pos,
            t.end == final(reader).pos,
            old(reader).pos < final(reader).pos,
            t.kind == TokenKind::Operator(op),
    {
        let ghost input = reader.input@;
        let ghost pos0 = reader.pos as int;
        let mut acc = String::new();
        proof {
            assert(input.subrange(pos0, pos0) =~= encode_utf8(acc@));
        }
        let mut i: usize = 0;
        while i < width
            invariant
                scan_ok(*self, *reader),
                same_but_counters(*old(self), *self),
                reader.input == old(reader).input,
                input == reader.input@,
                pos0 == old(reader).pos,
                start == old(reader).pos,
                pos0 <= reader.pos,
                i <= width,
                i > 0 ==> reader.pos > pos0,
                acc@.len() == i,
                input.subrange(pos0, reader.pos as int) == encode_utf8(acc@),
                crate::utf8_cursor::spec_chars_at(input, pos0, width as nat) == Some(text@),
                crate::utf8_cursor::spec_chars_at(input, reader.pos as int, (width - i) as nat)
                    == Some(text@.subrange(i as int, width as int)),
                text@.len() == width,
                acc@ == text@.subrange(0, i as int),
            decreases width - i,
        {
            proof {
                crate::utf8_cursor::lemma_chars_at_step(
                    input,
                    reader.pos as int,
                    (width - i) as nat,
                );
            }
            let c = self.take_char(reader, &mut acc, Ghost(pos0));
            proof {
                assert(acc@ =~= text@.subrange(0, i + 1));
            }
            i = i + 1;
        }
        proof {
            assert(acc@ =~= text@);
            crate::tables::lemma_operator_text(text@);
        }
        let end = reader.pos();
        let lexeme = reader.slice(start, end);
        let t = Token {
            kind: TokenKind::Operator(op),
            lexeme,
            start,
            end,
            line: line0,
            column: col0,
        };
        proof {
            reveal(crate::tokens::kind_wf);
            assert(token_wf(t, input));
        }
        t
    }

    /// Scans one step at the cursor: classifies the position and emits the
    /// token (or token group) found there, trying in order: comment, string
    /// or template literal, numeric literal, line terminator, whitespace,
    /// identifier or keyword, punctuator.
    pub fn read_expression(&mut self, reader: &mut Utf8Cursor) -> (r: Result<
        Vec<Token>,
        LexerError,
    >)
        requires
            scan_ok(*old(self), *old(reader)),
            old(reader).pos < old(reader).input.len(),
        ensures
            scan_ok(*final(self), *final(reader)),
            same_but_counters(*old(self), *final(self)),
            final(reader).input == old(reader).input,
            old(reader).pos <= final(reader).pos,
            (r matches Ok(ts) ==> {
                &&& tokens_chain(
                    ts@,
                    old(reader).input@,
                    old(reader).pos as int,
                    final(reader).pos as int,
                )
                &&& final(reader).pos > old(reader).pos
            }),
            (r matches Err(e) ==> e.span.start <= final(reader).pos <= e.span.end
                && e.span.end <= final(reader).input@.len()),
            (decode_ok(old(reader).input@, old(reader).pos as int) && {
                let c = decoded_char(old(reader).input@, old(reader).pos as int);
                let next = crate::utf8_cursor::spec_peek_ahead(
                    old(reader).input@,
                    old(reader).pos as int,
                    1,
                );
                &&& crate::tokens::spec_comment_start(c, next) == CommentKind::NoComment
                &&& crate::tokens::spec_string_kind(c) == StringKind::NoString
                &&& !crate::tokens::spec_is_number_start(c, next)
                &&& (spec_is_line_break(c) || spec_is_white_space(c)
                    || crate::tokens::spec_is_identifier_start(c))
            }) ==> r is Ok,
            (decode_ok(old(reader).input@, old(reader).pos as int) && {
                let c = decoded_char(old(reader).input@, old(reader).pos as int);
                let next = crate::utf8_cursor::spec_peek_ahead(
                    old(reader).input@,
                    old(reader).pos as int,
                    1,
                );
                &&& crate::tokens::spec_comment_start(c, next) == CommentKind::NoComment
                &&& crate::tokens::spec_string_kind(c) == StringKind::NoString
                &&& crate::tokens::spec_is_number_start(c, next)
            }) ==> ((r is Ok <==> crate::lexer_numeric::spec_numeric_scan_ok(
                old(reader).input@,
                old(reader).pos as int,
                old(self).strict_mode,
            )) && (r matches Ok(ts) ==> ts@.len() == 1 && ts@[0].kind
                matches TokenKind::NumericLiteral { .. })),
            (decode_ok(old(reader).input@, old(reader).pos as int) && {
                let c = decoded_char(old(reader).input@, old(reader).pos as int);
                let next = crate::utf8_cursor::spec_peek_ahead(
                    old(reader).input@,
                    old(reader).pos as int,
                    1,
                );
                crate::tokens::spec_comment_start(c, next) == CommentKind::SingleLine
            }) ==> (r is Ok && (r matches Ok(ts) ==> ts@.len() == 1 && (ts@[0].kind
                matches TokenKind::CommentLine { .. }) && !(decode_ok(
                old(reader).input@,
                final(reader).pos as int,
            ) && !spec_is_line_break(
                decoded_char(old(reader).input@, final(reader).pos as int),
            )))),
            (decode_ok(old(reader).input@, old(reader).pos as int) && {
                let c = decoded_char(old(reader).input@, old(reader).pos as int);
                let next = crate::utf8_cursor::spec_peek_ahead(
                    old(reader).input@,
                    old(reader).pos as int,
                    1,
                );
                crate::tokens::spec_comment_start(c, next) == CommentKind::MultiLine
            }) ==> ((r matches Ok(ts) ==> ts@.len() == 1 && (ts@[0].kind
                matches TokenKind::CommentBlock { .. }) && ts@[0].lexeme@.len() >= 4
                && ts@[0].lexeme@[ts@[0].lexeme@.len() - 2] == 42
                && ts@[0].lexeme@[ts@[0].lexeme@.len() - 1] == 47) && (r matches Err(e) ==> ((
            e.kind matches LexerErrorKind::UnterminatedComment
                || e.kind matches LexerErrorKind::UnexpectedCharacter { .. }) && (final(reader).pos
                >= final(reader).input.len()
                ==> e.kind matches LexerErrorKind::UnterminatedComment)))),
            (decode_ok(old(reader).input@, old(reader).pos as int) && {
                let c = decoded_char(old(reader).input@, old(reader).pos as int);
                let next = crate::utf8_cursor::spec_peek_ahead(
                    old(reader).input@,
                    old(reader).pos as int,
                    1,
                );
                &&& crate::tokens::spec_comment_start(c, next) == CommentKind::NoComment
                &&& spec_is_line_break(c)
            }) ==> (r matches Ok(ts) ==> ts@.len() == 1 && ts@[0].kind
                matches TokenKind::Newline),
            (decode_ok(old(reader).input@, old(reader).pos as int) && {
                let c = decoded_char(old(reader).input@, old(reader).pos as int);
                let next = crate::utf8_cursor::spec_peek_ahead(
                    old(reader).input@,
                    old(reader).pos as int,
                    1,
                );
                &&& crate::tokens::spec_comment_start(c, next) == CommentKind::NoComment
                &&& crate::tokens::spec_string_kind(c) == StringKind::NoString
                &&& !crate::tokens::spec_is_number_start(c, next)
                &&& !spec_is_line_break(c)
                &&& spec_is_white_space(c)
            }) ==> (r matches Ok(ts) ==> ts@.len() == 1 && (ts@[0].kind
                matches TokenKind::Whitespace) && !(decode_ok(
                old(reader).input@,
                final(reader).pos as int,
            ) && spec_is_white_space(
                decoded_char(old(reader).input@, final(reader).pos as int),
            ))),
            (decode_ok(old(reader).input@, old(reader).pos as int) && {
                let c = decoded_char(old(reader).input@, old(reader).pos as int);
                let next = crate::utf8_cursor::spec_peek_ahead(
                    old(reader).input@,
                    old(reader).pos as int,
                    1,
                );
                &&& crate::tokens::spec_comment_start(c, next) == CommentKind::NoComment
                &&& crate::tokens::spec_string_kind(c) == StringKind::NoString
                &&& !crate::tokens::spec_is_number_start(c, next)
                &&& !spec_is_line_break(c)
                &&& !spec_is_white_space(c)
                &&& !crate::tokens::spec_is_identifier_start(c)
                &&& crate::tokens::spec_is_operator_start(c)
            }) ==> ((r is Ok <==> (op_match_at(old(reader).input@, old(reader).pos as int, 1)
                || op_match_at(old(reader).input@, old(reader).pos as int, 2) || op_match_at(
                old(reader).input@,
                old(reader).pos as int,
                3,
            ) || op_match_at(old(reader).input@, old(reader).pos as int, 4))) && (r matches Ok(ts)
                ==> ts@.len() == 1 && ts@[0].kind matches TokenKind::Operator { .. })),
            (decode_ok(old(reader).input@, old(reader).pos as int) && {
                let c = decoded_char(old(reader).input@, old(reader).pos as int);
                let next = crate::utf8_cursor::spec_peek_ahead(
                    old(reader).input@,
                    old(reader).pos as int,
                    1,
                );
                &&& crate::tokens::spec_comment_start(c, next) == CommentKind::NoComment
                &&& (crate::tokens::spec_string_kind(c) == StringKind::DoubleQuote
                    || crate::tokens::spec_string_kind(c) == StringKind::SingleQuote)
            }) ==> ((r is Ok <==> crate::lexer_string::quoted_scan_ok(
                old(reader).input@,
                old(reader).pos + 1,
                decoded_char(old(reader).input@, old(reader).pos as int),
                old(self).strict_mode,
            )) && (r matches Ok(ts) ==> ts@.len() == 1 && ts@[0].kind
                matches TokenKind::StringLiteral { .. })),
        decreases old(reader).input@.len() - old(reader).pos, 1int,
    {
        let ghost input = reader.input@;
        let ghost pos0 = reader.pos as int;
        let start = reader.pos();
        let line0 = self.current_line;
        let col0 = self.current_column;
        let c = match reader.peek() {
            Some(c) => c,
            None => {
                // not at the end of the input, so the bytes here are not
                // well-formed UTF-8
                return Err(
                    LexerError {
                        kind: LexerErrorKind::UnexpectedCharacter { found: '\u{FFFD}' },
                        span: Span { start, end: start + 1 },
                    },
                );
            },
        };
        let c_next = reader.peek_n(1);

        let comment = Token::is_comment_start(c, c_next);
        if comment == CommentKind::SingleLine {
            let text = self.read_while_line_break(reader);
            proof {
                // '/' is not a line terminator, so at least one byte was read
                assert(reader.pos > pos0);
            }
            let k = TokenKind::CommentLine(text);
            proof {
                reveal(crate::tokens::kind_wf);
                assert(kind_wf(k, input.subrange(pos0, reader.pos as int)));
            }
            return Ok(finish_single(reader, k, start, line0, col0));
        }
        if comment == CommentKind::MultiLine {
            let mut text = String::new();
            proof {
                assert(input.subrange(pos0, pos0) =~= encode_utf8(text@));
            }
            let _t0 = self.take_char(reader, &mut text, Ghost(pos0));
            proof {
                crate::utf8_cursor::lemma_peek_ahead_step(input, pos0, 1);
            }
            let _t1 = self.take_char(reader, &mut text, Ghost(pos0));
            loop
                invariant
                    scan_ok(*self, *reader),
                    same_but_counters(*old(self), *self),
                    reader.input == old(reader).input,
                    input == reader.input@,
                    pos0 == old(reader).pos,
                    start == old(reader).pos,
                    pos0 + 2 <= reader.pos,
                    c == decoded_char(input, pos0),
                    c_next == crate::utf8_cursor::spec_peek_ahead(input, pos0, 1),
                    crate::tokens::spec_comment_start(c, c_next) == CommentKind::MultiLine,
                    input.subrange(pos0, reader.pos as int) == encode_utf8(text@),
                decreases input.len() - reader.pos,
            {
                let ghost tpre = text@;
                let ghost ppre = reader.pos as int;
                let body = self.read_while(reader, CharPred::BlockCommentBody);
                text.append(body.as_str());
                proof {
                    crate::utf8_cursor::lemma_encode_utf8_concat(tpre, body@);
                    assert(input.subrange(pos0, reader.pos as int) =~= input.subrange(pos0, ppre)
                        + input.subrange(ppre, reader.pos as int));
                }
                let cc = match reader.peek() {
                    Some(cc) => cc,
                    None => {
                        return Err(
                            LexerError {
                                kind: if reader.eof() {
                                    LexerErrorKind::UnterminatedComment
                                } else {
                                    LexerErrorKind::UnexpectedCharacter { found: '\u{FFFD}' }
                                },
                                span: Span { start, end: reader.pos() },
                            },
                        );
                    },
                };
                if cc == '*' && reader.peek_n(1) == Some('/') {
                    let ghost p_star = reader.pos as int;
                    proof {
                        crate::utf8_cursor::lemma_peek_ahead_step(input, reader.pos as int, 1);
                        crate::utf8_cursor::lemma_ascii_decode(input, p_star);
                    }
                    let _a0 = self.take_char(reader, &mut text, Ghost(pos0));
                    proof {
                        crate::utf8_cursor::lemma_ascii_decode(input, reader.pos as int);
                    }
                    let _a1 = self.take_char(reader, &mut text, Ghost(pos0));
                    let k = TokenKind::CommentBlock(text);
                    proof {
                        reveal(crate::tokens::kind_wf);
                        assert(kind_wf(k, input.subrange(pos0, reader.pos as int)));
                        assert(input[p_star] == 42 && input[p_star + 1] == 47);
                    }
                    let ts = finish_single(reader, k, start, line0, col0);
                    proof {
                        assert(token_wf(ts@[0], input));
                        assert(ts@[0].lexeme@ == input.subrange(pos0, reader.pos as int));
                        assert(ts@[0].lexeme@[ts@[0].lexeme@.len() - 2] == input[p_star]);
                        assert(ts@[0].lexeme@[ts@[0].lexeme@.len() - 1] == input[p_star + 1]);
                    }
                    return Ok(ts);
                } else {
                    let _skipped = self.take_char(reader, &mut text, Ghost(pos0));
                }
            }
        }

        let sk = Token::is_string_start(c);
        if sk == StringKind::DoubleQuote || sk == StringKind::SingleQuote {
            return self.read_string(reader, c);
        }
        if sk == StringKind::TemplateString {
            return self.read_template_literal(reader);
        }

        if Token::is_number_start(c, c_next) {
            let t = match self.read_numeric_literal(reader) {
                Ok(t) => t,
                Err(e) => {
                    return Err(e);
                },
            };
            proof {
                crate::tokens::lemma_chain_singleton(t, input);
            }
            let mut ts: Vec<Token> = Vec::new();
            ts.push(t);
            proof {
                assert(ts@ =~= seq![t]);
            }
            return Ok(ts);
        }

        if Token::is_line_break(c) {
            let mut text = String::new();
            proof {
                assert(input.subrange(pos0, pos0) =~= encode_utf8(text@));
            }
            let _t0 = self.take_char(reader, &mut text, Ghost(pos0));
            if c == '\u{000D}' && c_next == Some('\u{000A}') {
                // the CR LF pair is one newline token and one line step,
                // so the LF is consumed without touching the counters
                proof {
                    crate::utf8_cursor::lemma_peek_ahead_step(input, pos0, 1);
                }
                let ghost p1 = reader.pos as int;
                let ghost tp = text@;
                let a = reader.advance().unwrap();
                push_char(&mut text, a);
                proof {
                    lemma_decoded_bytes(input, p1);
                    lemma_encode_utf8_push(tp, a);
                    assert(input.subrange(pos0, reader.pos as int) =~= input.subrange(pos0, p1)
                        + input.subrange(p1, reader.pos as int));
                }
            }
            let k = TokenKind::Newline;
            proof {
                vstd::utf8::encode_utf8_valid_utf8(text@);
                vstd::utf8::encode_utf8_decode_utf8(text@);
                if c == '\u{000D}' && c_next == Some('\u{000A}') {
                    assert(text@ =~= seq!['\u{000D}', '\u{000A}']);
                } else {
                    assert(text@ =~= seq![c]);
                }
                reveal(crate::tokens::kind_wf);
                assert(kind_wf(k, input.subrange(pos0, reader.pos as int)));
                // a lone CR token is emitted only when no LF follows it
                if input.subrange(pos0, reader.pos as int) == seq![13u8] && reader.pos
                    < reader.input.len() && input[reader.pos as int] == 10 {
                    crate::utf8_cursor::lemma_ascii_decode(input, pos0);
                    assert(reader.pos == pos0 + 1);
                    crate::utf8_cursor::lemma_ascii_byte_decodes(input, reader.pos as int);
                    crate::utf8_cursor::lemma_peek_ahead_step(input, pos0, 1);
                    assert(c_next == Some('\u{000A}'));
                    assert(c as u32 == 13);
                    assert(c == '\u{000D}');
                    assert(false);
                }
            }
            return Ok(finish_single(reader, k, start, line0, col0));
        }

        if Token::is_white_space(c) {
            let white = self.read_while(reader, CharPred::WhiteSpaceRun);
            proof {
                assert(reader.pos > pos0);
                vstd::utf8::encode_utf8_valid_utf8(white@);
                vstd::utf8::encode_utf8_decode_utf8(white@);
                if white@.len() == 0 {
                    assert(encode_utf8(white@) =~= Seq::<u8>::empty());
                    assert(false);
                }
                reveal(crate::tokens::kind_wf);
                assert(kind_wf(TokenKind::Whitespace, input.subrange(pos0, reader.pos as int)));
            }
            return Ok(finish_single(reader, TokenKind::Whitespace, start, line0, col0));
        }

        if Token::is_valid_identifier_start(c) {
            let t = self.read_identifier(reader);
            proof {
                crate::tokens::lemma_chain_singleton(t, input);
            }
            let mut ts: Vec<Token> = Vec::new();
            ts.push(t);
            proof {
                assert(ts@ =~= seq![t]);
            }
            return Ok(ts);
        }

        if Token::is_operator_start(c) {
            let t = match self.read_operator(reader) {
                Ok(t) => t,
                Err(e) => {
                    return Err(e);
                },
            };
            proof {
                crate::tokens::lemma_chain_singleton(t, input);
            }
            let mut ts: Vec<Token> = Vec::new();
            ts.push(t);
            proof {
                assert(ts@ =~= seq![t]);
            }
            return Ok(ts);
        }

        Err(
            LexerError {
                kind: LexerErrorKind::UnexpectedCharacter { found: c },
                span: Span { start, end: start + 1 },
            },
        )
    }

    /// Scans the whole input from the cursor's position to its end.  With
    /// `is_file` set, a leading `#!` line is consumed as a line comment
    /// token.  When `preserve_trivia` is cleared on the scanner, whitespace,
    /// newline and comment tokens are dropped from the result.
    pub fn lex_string(&mut self, reader: &mut Utf8Cursor, is_file: bool) -> (r: Result<
        Vec<Token>,
        LexerError,
    >)
        requires
            scan_ok(*old(self), *old(reader)),
        ensures
            scan_ok(*final(self), *final(reader)),
            same_but_counters(*old(self), *final(self)),
            final(reader).input == old(reader).input,
            old(reader).pos == old(reader).input@.len() ==> r is Ok,
            (r matches Err(e) ==> e.span.start <= final(reader).pos <= e.span.end
                && e.span.end <= final(reader).input@.len()),
            (is_file && old(reader).pos == 0 && old(self).preserve_trivia && decode_ok(
                old(reader).input@,
                0,
            ) && crate::tokens::spec_is_hashbang(
                decoded_char(old(reader).input@, 0),
                crate::utf8_cursor::spec_peek_ahead(old(reader).input@, 0, 1),
            ) ==> (r matches Ok(ts) ==> ts@.len() >= 1 && ts@[0].kind
                matches TokenKind::CommentLine { .. })),
            (r matches Ok(ts) ==> {
                &&& final(reader).pos == final(reader).input.len()
                &&& (old(self).preserve_trivia ==> tokens_chain(
                    ts@,
                    old(reader).input@,
                    old(reader).pos as int,
                    old(reader).input@.len() as int,
                ))
                &&& (!old(self).preserve_trivia ==> exists|full: Seq<Token>|
                    {
                        &&& tokens_chain(
                            full,
                            old(reader).input@,
                            old(reader).pos as int,
                            old(reader).input@.len() as int,
                        )
                        &&& ts@ == full.filter(|t: Token| !spec_is_trivia(t.kind))
                    })
            }),
    {
        let ghost input = reader.input@;
        let ghost pos0 = reader.pos as int;
        let mut tokens: Vec<Token> = Vec::new();
        proof {
            assert(tokens@ =~= Seq::<Token>::empty());
        }
        if is_file && reader.pos() == 0 && !reader.eof() {
            let line0 = self.current_line;
            let col0 = self.current_column;
            match reader.peek() {
                Some(h) => {
                    let h_next = reader.peek_n(1);
                    if Token::is_hashbang(h, h_next) {
                        let text = self.read_while_line_break(reader);
                        proof {
                            assert(reader.pos > pos0);
                        }
                        let k = TokenKind::CommentLine(text);
                        proof {
                            reveal(crate::tokens::kind_wf);
                assert(kind_wf(k, input.subrange(pos0, reader.pos as int)));
                        }
                        let mut hb = finish_single(reader, k, 0, line0, col0);
                        proof {
                            crate::tokens::lemma_chain_concat(
                                tokens@,
                                hb@,
                                input,
                                pos0,
                                pos0,
                                reader.pos as int,
                            );
                        }
                        tokens.append(&mut hb);
                    }
                },
                None => {},
            }
        }
        loop
            invariant
                scan_ok(*self, *reader),
                same_but_counters(*old(self), *self),
                reader.input == old(reader).input,
                input == reader.input@,
                pos0 == old(reader).pos,
                pos0 <= reader.pos,
                tokens_chain(tokens@, input, pos0, reader.pos as int),
                (is_file && pos0 == 0 && decode_ok(input, 0) && crate::tokens::spec_is_hashbang(
                    decoded_char(input, 0),
                    crate::utf8_cursor::spec_peek_ahead(input, 0, 1),
                )) ==> (tokens@.len() >= 1 && tokens@[0].kind
                    matches TokenKind::CommentLine { .. }),
            ensures
                scan_ok(*self, *reader),
                same_but_counters(*old(self), *self),
                reader.input == old(reader).input,
                input == reader.input@,
                pos0 == old(reader).pos,
                tokens_chain(tokens@, input, pos0, reader.pos as int),
                reader.pos >= reader.input.len(),
                (is_file && pos0 == 0 && decode_ok(input, 0) && crate::tokens::spec_is_hashbang(
                    decoded_char(input, 0),
                    crate::utf8_cursor::spec_peek_ahead(input, 0, 1),
                )) ==> (tokens@.len() >= 1 && tokens@[0].kind
                    matches TokenKind::CommentLine { .. }),
            decreases input.len() - reader.pos,
        {
            if reader.eof() {
                break ;
            }
            let ghost mid = reader.pos as int;
            let ghost tcur = tokens@;
            let mut sub = match self.read_expression(reader) {
                Ok(ts) => ts,
                Err(e) => {
                    return Err(e);
                },
            };
            proof {
                crate::tokens::lemma_chain_concat(
                    tcur,
                    sub@,
                    input,
                    pos0,
                    mid,
                    reader.pos as int,
                );
            }
            tokens.append(&mut sub);
        }
        if self.preserve_trivia {
            Ok(tokens)
        } else {
            let ghost full = tokens@;
            let filtered = filter_trivia(tokens);
            proof {
                assert(tokens_chain(full, input, pos0, input.len() as int) && filtered@
                    == full.filter(|t: Token| !spec_is_trivia(t.kind)));
            }
            Ok(filtered)
        }
    }
}

/// Builds a one-token group whose token covers `[start, reader.pos)`; the
/// kind must already be well formed for that byte range.
fn finish_single(reader: &Utf8Cursor, kind: TokenKind, start: usize, line0: usize, col0: usize) -> (ts:
    Vec<Token>)
    requires
        start < reader.pos <= reader.input.len(),
        kind_wf(kind, reader.input@.subrange(start as int, reader.pos as int)),
        (kind matches TokenKind::Newline) && reader.input@.subrange(
            start as int,
            reader.pos as int,
        ) == seq![13u8] ==> !(reader.pos < reader.input.len() && reader.input@[reader.pos as int]
            == 10),
    ensures
        tokens_chain(ts@, reader.input@, start as int, reader.pos as int),
        ts@.len() == 1,
        ts@[0].kind == kind,
{
    let end = reader.pos();
    let lexeme = reader.slice(start, end);
    let t = Token { kind, lexeme, start, end, line: line0, column: col0 };
    proof {
        assert(token_wf(t, reader.input@));
        crate::tokens::lemma_chain_singleton(t, reader.input@);
    }
    let mut ts: Vec<Token> = Vec::new();
    ts.push(t);
    proof {
        assert(ts@ =~= seq![t]);
    }
    ts
}

/// Drops whitespace, newline and comment tokens, keeping everything else in
/// order.
pub fn filter_trivia(tokens: Vec<Token>) -> (r: Vec<Token>)
    ensures
        r@ == tokens@.filter(|t: Token| !spec_is_trivia(t.kind)),
{
    let ghost orig = tokens@;
    let mut rest = tokens;
    let mut out: Vec<Token> = Vec::new();
    let ghost mut processed = Seq::<Token>::empty();
    proof {
        reveal(Seq::filter);
        assert(orig =~= processed + rest@);
    }
    while rest.len() > 0
        invariant
            orig == processed + rest@,
            out@ == processed.filter(|t: Token| !spec_is_trivia(t.kind)),
        decreases rest@.len(),
    {
        let ghost rest0 = rest@;
        let t = rest.remove(0);
        proof {
            assert(rest0 =~= seq![t] + rest@);
        }
        let keep = match t.kind {
            TokenKind::Whitespace => false,
            TokenKind::Newline => false,
            TokenKind::CommentLine(_) => false,
            TokenKind::CommentBlock(_) => false,
            _ => true,
        };
        proof {
            reveal(Seq::filter);
            assert(processed.push(t).drop_last() =~= processed);
            assert(processed.push(t).last() == t);
        }
        if keep {
            out.push(t);
            proof {
                assert(out@ =~= processed.push(t).filter(|t: Token| !spec_is_trivia(t.kind)));
            }
        } else {
            proof {
                assert(out@ =~= processed.push(t).filter(|t: Token| !spec_is_trivia(t.kind)));
            }
        }
        proof {
            processed = processed.push(t);
            assert(orig =~= processed + rest@);
        }
    }
    proof {
        assert(processed =~= orig);
    }
    out
}

} // verus!
