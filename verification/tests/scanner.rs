use ecma_lexer::lexer_base::{filter_trivia, Lexer};
use ecma_lexer::lexer_errors::{LexerError, LexerErrorKind};
use ecma_lexer::tables::{KeywordEnum, OperatorEnum};
use ecma_lexer::tokens::{EscapeKind, NumericBase, Token, TokenKind};
use ecma_lexer::string_utils::AdvancedStringMethods;
use ecma_lexer::utf8_cursor::Utf8Cursor;

fn scan(src: &str) -> Vec<Token> {
    let mut lexer = Lexer::new();
    let mut reader = Utf8Cursor::new(src);
    lexer.lex_string(&mut reader, false).unwrap()
}

fn scan_file(src: &str) -> Vec<Token> {
    let mut lexer = Lexer::new();
    let mut reader = Utf8Cursor::new(src);
    lexer.lex_string(&mut reader, true).unwrap()
}

fn scan_err(src: &str) -> LexerError {
    let mut lexer = Lexer::new();
    let mut reader = Utf8Cursor::new(src);
    lexer.lex_string(&mut reader, false).unwrap_err()
}

/// Concatenating every lexeme reproduces the input byte for byte, each token
/// ends where the next one starts, and each span is nonempty and as wide as
/// its lexeme.
fn check_lossless(src: &str) {
    let tokens = scan(src);
    let mut bytes: Vec<u8> = Vec::new();
    let mut at = 0usize;
    for (i, t) in tokens.iter().enumerate() {
        assert_eq!(t.start, at, "token {} does not start where the last ended", i);
        assert!(t.end > t.start);
        assert_eq!(t.end - t.start, t.lexeme.len());
        bytes.extend_from_slice(&t.lexeme);
        at = t.end;
    }
    assert_eq!(bytes, src.as_bytes().to_vec());
    assert_eq!(at, src.as_bytes().len());
}

#[test]
fn lossless_scans() {
    check_lossless("");
    check_lossless("let x = 42;");
    check_lossless("const s = 'a\\n';\r\nif (x >= 1) { y >>>= 2; } // done");
    check_lossless("/* block\n comment */ foo.bar(0x1F, .5, 1_000n)");
    check_lossless("`a${1+2}b` + `${ `nested ${x}` }`");
    check_lossless("\u{FEFF}var \u{03B1} = \"\u{1F600}\"; // π\u{2028}done");
}

#[test]
fn empty_input_scans_to_nothing() {
    assert_eq!(scan("").len(), 0);
}

#[test]
fn hashbang_line_is_one_comment() {
    let tokens = scan_file("#!/usr/bin/env node\n");
    assert_eq!(tokens.len(), 2);
    assert!(matches!(tokens[0].kind, TokenKind::CommentLine(_)));
    assert_eq!(tokens[0].lexeme, b"#!/usr/bin/env node".to_vec());
    assert!(matches!(tokens[1].kind, TokenKind::Newline));
}

#[test]
fn zero_alone_is_decimal() {
    let tokens = scan("0");
    assert_eq!(tokens.len(), 1);
    match &tokens[0].kind {
        TokenKind::NumericLiteral {
            canonical,
            base,
            legacy_octal,
            is_bigint,
            ..
        } => {
            assert_eq!(*base, NumericBase::Decimal);
            assert_eq!(canonical, &b"0".to_vec());
            assert!(!legacy_octal);
            assert!(!is_bigint);
        }
        other => panic!("unexpected kind {:?}", other),
    }
}

#[test]
fn dot_before_non_digit_is_operator() {
    let tokens = scan(".x");
    assert!(matches!(
        tokens[0].kind,
        TokenKind::Operator(OperatorEnum::Punctuator)
    ));
}

#[test]
fn crlf_is_one_newline() {
    let tokens = scan("\r\n");
    assert_eq!(tokens.len(), 1);
    assert!(matches!(tokens[0].kind, TokenKind::Newline));
    assert_eq!(tokens[0].lexeme.len(), 2);
}

#[test]
fn binary_literal_scenario() {
    let tokens = scan("0b101010");
    assert_eq!(tokens.len(), 1);
    match &tokens[0].kind {
        TokenKind::NumericLiteral {
            canonical,
            base,
            is_bigint,
            ..
        } => {
            assert_eq!(*base, NumericBase::Binary);
            assert!(!is_bigint);
            let v = i64::from_str_radix(&String::from_utf8(canonical.clone()).unwrap(), 2).unwrap();
            assert_eq!(v, 42);
        }
        other => panic!("unexpected kind {:?}", other),
    }
}

#[test]
fn hex_bigint_scenario() {
    let tokens = scan("0x123n");
    assert_eq!(tokens.len(), 1);
    match &tokens[0].kind {
        TokenKind::NumericLiteral { base, is_bigint, .. } => {
            assert_eq!(*base, NumericBase::Hex);
            assert!(is_bigint);
        }
        other => panic!("unexpected kind {:?}", other),
    }
    let big = tokens[0].bigint_value().unwrap();
    assert_eq!(big.to_str_radix(10), "291");
}

#[test]
fn exponent_scenario() {
    let tokens = scan("1.2e-3");
    assert_eq!(tokens.len(), 1);
    match &tokens[0].kind {
        TokenKind::NumericLiteral {
            canonical,
            base,
            has_exponent,
            ..
        } => {
            assert_eq!(*base, NumericBase::Decimal);
            assert!(has_exponent);
            let v: f64 = String::from_utf8(canonical.clone()).unwrap().parse().unwrap();
            assert_eq!(v, 0.0012);
        }
        other => panic!("unexpected kind {:?}", other),
    }
}

#[test]
fn string_escapes_scenario() {
    let tokens = scan("\"hello\\u{1234}\\123 world\"");
    assert_eq!(tokens.len(), 1);
    match &tokens[0].kind {
        TokenKind::StringLiteral { value, escapes, raw } => {
            assert_eq!(value, "helloሴS world");
            assert_eq!(escapes.len(), 2);
            assert_eq!(escapes[0].kind, EscapeKind::Unicode);
            assert_eq!(escapes[1].kind, EscapeKind::Octal);
            assert_eq!(escapes[0].resolved_char, 'ሴ');
            assert_eq!(escapes[1].resolved_char, 'S');
            // each escape's raw bytes sit at its recorded place in `raw`
            for e in escapes {
                let lo = e.position_in_raw;
                let hi = lo + e.raw.len();
                assert!(hi <= raw.len());
                assert_eq!(&raw[lo..hi], e.raw.as_slice());
                assert_eq!(e.raw[0], b'\\');
            }
            // one record per backslash-initiated sequence in `raw`
            let backslashes = raw.iter().filter(|b| **b == b'\\').count();
            assert_eq!(escapes.len(), backslashes);
        }
        other => panic!("unexpected kind {:?}", other),
    }
}

#[test]
fn template_scenario() {
    let tokens = scan("`a${1+2}b`");
    let kinds: Vec<&TokenKind> = tokens.iter().map(|t| &t.kind).collect();
    assert_eq!(tokens.len(), 9);
    assert!(matches!(kinds[0], TokenKind::TemplateStart));
    match kinds[1] {
        TokenKind::StringLiteral { value, .. } => assert_eq!(value, "a"),
        other => panic!("unexpected kind {:?}", other),
    }
    assert!(matches!(kinds[2], TokenKind::DollarCurlyOpen));
    assert!(matches!(kinds[3], TokenKind::NumericLiteral { .. }));
    assert!(matches!(kinds[4], TokenKind::Operator(OperatorEnum::Plus)));
    assert!(matches!(kinds[5], TokenKind::NumericLiteral { .. }));
    assert!(matches!(
        kinds[6],
        TokenKind::Operator(OperatorEnum::RightBrace)
    ));
    match kinds[7] {
        TokenKind::StringLiteral { value, .. } => assert_eq!(value, "b"),
        other => panic!("unexpected kind {:?}", other),
    }
    assert!(matches!(kinds[8], TokenKind::TemplateEnd));
}

#[test]
fn maximal_munch_scenario() {
    let tokens = scan(">>>=");
    assert_eq!(tokens.len(), 1);
    assert!(matches!(
        tokens[0].kind,
        TokenKind::Operator(OperatorEnum::AssignShiftRightUnsigned)
    ));
}

#[test]
fn keywords_and_identifiers() {
    let tokens = scan("let αβ1 = typeof _x$;");
    let kinds: Vec<&TokenKind> = tokens
        .iter()
        .map(|t| &t.kind)
        .filter(|k| !matches!(k, TokenKind::Whitespace))
        .collect();
    assert!(matches!(kinds[0], TokenKind::Keyword(KeywordEnum::Let)));
    match kinds[1] {
        TokenKind::Identifier(name) => assert_eq!(name, "αβ1"),
        other => panic!("unexpected kind {:?}", other),
    }
    assert!(matches!(kinds[2], TokenKind::Operator(OperatorEnum::Equal)));
    assert!(matches!(kinds[3], TokenKind::Keyword(KeywordEnum::Typeof)));
    match kinds[4] {
        TokenKind::Identifier(name) => assert_eq!(name, "_x$"),
        other => panic!("unexpected kind {:?}", other),
    }
    assert!(matches!(
        kinds[5],
        TokenKind::Operator(OperatorEnum::Semicolon)
    ));
}

#[test]
fn unicode_space_separator_is_whitespace() {
    // U+00A0 NO-BREAK SPACE is category Zs
    let tokens = scan("a\u{00A0}b");
    assert_eq!(tokens.len(), 3);
    assert!(matches!(tokens[1].kind, TokenKind::Whitespace));
}

#[test]
fn comments() {
    let tokens = scan("// line\n/* multi\nline */");
    assert!(matches!(&tokens[0].kind, TokenKind::CommentLine(t) if t == "// line"));
    assert!(matches!(tokens[1].kind, TokenKind::Newline));
    assert!(matches!(&tokens[2].kind, TokenKind::CommentBlock(t) if t == "/* multi\nline */"));
}

#[test]
fn rescanning_a_lexeme_gives_the_same_kind() {
    let src = "for (let i = 0; i < 0x10n; i += 1.5e2) { s = 'a\\tb'; t = u >>> 2; }";
    let tokens = scan(src);
    assert!(tokens.len() > 10);
    for t in &tokens {
        let again = match &t.kind {
            TokenKind::Identifier(_)
            | TokenKind::Keyword(_)
            | TokenKind::Operator(_)
            | TokenKind::NumericLiteral { .. } => scan(&String::from_utf8(t.lexeme.clone()).unwrap()),
            TokenKind::StringLiteral { .. }
                if t.lexeme[0] == b'"' || t.lexeme[0] == b'\'' =>
            {
                scan(&String::from_utf8(t.lexeme.clone()).unwrap())
            }
            _ => continue,
        };
        assert_eq!(again.len(), 1, "lexeme {:?}", t.lexeme);
        assert_eq!(again[0].kind, t.kind, "lexeme {:?}", t.lexeme);
    }
}

#[test]
fn error_cases() {
    assert!(matches!(
        scan_err("0b2").kind,
        LexerErrorKind::InvalidDigit {
            base: NumericBase::Binary,
            found: '2'
        }
    ));
    assert!(matches!(
        scan_err("019").kind,
        LexerErrorKind::InvalidDigit {
            base: NumericBase::Octal,
            found: '9'
        }
    ));
    assert!(matches!(
        scan_err("1_").kind,
        LexerErrorKind::InvalidDigit { .. }
    ));
    assert!(matches!(
        scan_err("'abc").kind,
        LexerErrorKind::UnterminatedString
    ));
    assert!(matches!(
        scan_err("'ab\nc'").kind,
        LexerErrorKind::UnterminatedString
    ));
    assert!(matches!(
        scan_err("`abc").kind,
        LexerErrorKind::UnterminatedTemplate
    ));
    assert!(matches!(
        scan_err("/* open").kind,
        LexerErrorKind::UnterminatedComment
    ));
    assert!(matches!(
        scan_err("\"a\\q\"").kind,
        LexerErrorKind::InvalidEscapeSequence
    ));
    assert!(matches!(
        scan_err("1.2.3").kind,
        LexerErrorKind::UnexpectedNumber
    ));
    assert!(matches!(
        scan_err("1e").kind,
        LexerErrorKind::UnexpectedNumber
    ));
    assert!(matches!(
        scan_err("1.5n").kind,
        LexerErrorKind::InvalidBigInt { .. }
    ));
    assert!(matches!(
        scan_err("0x").kind,
        LexerErrorKind::UnexpectedEOF
    ));
    assert!(matches!(
        scan_err("@").kind,
        LexerErrorKind::UnexpectedCharacter { found: '@' }
    ));
}

#[test]
fn strict_mode_rejects_legacy_octal() {
    let mut lexer = Lexer::new();
    lexer.strict_mode = true;
    let mut reader = Utf8Cursor::new("0123");
    let err = lexer.lex_string(&mut reader, false).unwrap_err();
    assert!(matches!(err.kind, LexerErrorKind::LegacyOctalInStrictMode));

    let mut lexer2 = Lexer::new();
    lexer2.strict_mode = true;
    let mut reader2 = Utf8Cursor::new("'a\\123'");
    let err2 = lexer2.lex_string(&mut reader2, false).unwrap_err();
    assert!(matches!(err2.kind, LexerErrorKind::LegacyOctalInStrictMode));
}

#[test]
fn trivia_can_be_dropped() {
    let mut lexer = Lexer::new();
    lexer.preserve_trivia = false;
    let mut reader = Utf8Cursor::new("a /* c */ b\n1");
    let tokens = lexer.lex_string(&mut reader, false).unwrap();
    assert_eq!(tokens.len(), 3);
    assert!(matches!(&tokens[0].kind, TokenKind::Identifier(n) if n == "a"));
    assert!(matches!(&tokens[1].kind, TokenKind::Identifier(n) if n == "b"));
    assert!(matches!(tokens[2].kind, TokenKind::NumericLiteral { .. }));

    let full = scan("a b");
    let kept = filter_trivia(full);
    assert_eq!(kept.len(), 2);
}

#[test]
fn bigint_value_is_none_without_suffix() {
    let tokens = scan("42");
    assert!(tokens[0].bigint_value().is_none());
    let tokens2 = scan("42n");
    let v = tokens2[0].bigint_value().unwrap();
    assert_eq!(v.to_str_radix(10), "42");
}

#[test]
fn cursor_operations() {
    let mut c = Utf8Cursor::new("aé€");
    assert_eq!(c.pos(), 0);
    assert!(!c.eof());
    assert_eq!(c.peek(), Some('a'));
    assert_eq!(c.peek_n(1), Some('é'));
    assert_eq!(c.peek_n(2), Some('€'));
    assert_eq!(c.peek_n(3), None);
    assert_eq!(c.advance(), Some('a'));
    assert_eq!(c.pos(), 1);
    assert_eq!(c.advance(), Some('é'));
    assert_eq!(c.pos(), 3);
    c.undo();
    assert_eq!(c.pos(), 1);
    assert_eq!(c.advance(), Some('é'));
    assert_eq!(c.advance(), Some('€'));
    assert!(c.eof());
    c.reset_to(0);
    assert_eq!(c.peek(), Some('a'));
}

#[test]
fn malformed_bytes_are_rejected() {
    // a lone continuation byte is not UTF-8
    let mut lexer = Lexer::new();
    let mut reader = Utf8Cursor::new("ab");
    reader.input = vec![b'a', 0x80, b'b'];
    let err = lexer.lex_string(&mut reader, false).unwrap_err();
    assert!(matches!(
        err.kind,
        LexerErrorKind::UnexpectedCharacter { .. }
    ));

    // an overlong encoding of '/' is rejected too
    let mut lexer2 = Lexer::new();
    let mut reader2 = Utf8Cursor::new("xy");
    reader2.input = vec![0xC0, 0xAF];
    assert!(lexer2.lex_string(&mut reader2, false).is_err());
}

#[test]
fn keyword_and_operator_tables() {
    assert_eq!(KeywordEnum::from_str("break"), Some(KeywordEnum::Break));
    assert_eq!(KeywordEnum::from_str("Break"), None);
    assert_eq!(KeywordEnum::from_str("set"), Some(KeywordEnum::Setter));
    assert_eq!(KeywordEnum::Break.as_str(), "break");
    assert_eq!(OperatorEnum::from_str(">>>="), Some(OperatorEnum::AssignShiftRightUnsigned));
    assert_eq!(OperatorEnum::from_str(">>=>"), None);
    assert_eq!(OperatorEnum::Arrow.as_str(), "=>");
    assert!(ecma_lexer::tokens::Token::is_keyword(&String::from("while")));
    assert_eq!(
        ecma_lexer::tokens::Token::get_operator(&String::from("**")),
        Some(OperatorEnum::Exponent)
    );
    assert!(ecma_lexer::tokens::Token::is_operator_start('%'));
    assert!(!ecma_lexer::tokens::Token::is_operator_start('@'));
}

#[test]
fn codepoint_helpers() {
    assert!(Lexer::is_valid_unicode_codepoint("0x41"));
    assert!(Lexer::is_valid_unicode_codepoint("0x1F600"));
    assert!(!Lexer::is_valid_unicode_codepoint("0x110000"));
    assert!(!Lexer::is_valid_unicode_codepoint("0xD800"));
    assert!(!Lexer::is_valid_unicode_codepoint("41"));
    assert!(!Lexer::is_valid_unicode_codepoint("0x"));
    assert!(!Lexer::is_valid_unicode_codepoint("0xZZ"));
    assert_eq!(Lexer::get_unicode_codepoint("0x41"), Ok('A'));
    assert_eq!(Lexer::get_unicode_codepoint("0x1234"), Ok('ሴ'));
    assert_eq!(Lexer::get_unicode_codepoint("0x1FFFFF"), Err(()));
}

#[test]
fn error_descriptions() {
    assert_eq!(
        LexerErrorKind::UnterminatedString.describe(),
        "unterminated string literal"
    );
    assert_eq!(
        LexerErrorKind::UnexpectedToken.describe(),
        "unexpected token"
    );
}

#[test]
fn process_buffer_classifies_words() {
    let mut word = String::from("return");
    let t = Lexer::process_buffer(&mut word, 10, 2, 3).unwrap();
    assert!(matches!(t.kind, TokenKind::Keyword(KeywordEnum::Return)));
    assert_eq!(t.start, 10);
    assert_eq!(t.end, 16);
    assert_eq!(word, "");

    let mut plain = String::from("nothing_reserved");
    assert!(Lexer::process_buffer(&mut plain, 0, 0, 0).is_none());
}

#[test]
fn line_and_column_positions() {
    let tokens = scan("a\nbb c");
    // 0-based lines and columns of the first byte of each token
    assert_eq!((tokens[0].line, tokens[0].column), (0, 0));
    assert!(matches!(tokens[1].kind, TokenKind::Newline));
    let bb = &tokens[2];
    assert_eq!(bb.line, 1);
    assert_eq!(bb.column, 0);
    let c = &tokens[4];
    assert_eq!(c.line, 1);
    assert_eq!(c.column, 3);
}

#[test]
fn string_utility_methods() {
    assert_eq!("hello".substring(1, 3), "el");
    assert_eq!("héllo".substring(1, 3), "él");
    assert_eq!("hello".substring(2, 99), "llo");
    assert_eq!(String::from("hello").substring_start(2), "llo");
    assert_eq!("hello".substring_end(2), "hel");
    assert_eq!("hello".substring_end(99), "");
    assert_eq!("7".pad_left(3, '0'), "007");
    assert_eq!("seven".pad_left(3, '0'), "seven");
    assert_eq!(String::from("7").pad_right(3, ' '), "7  ");
}

#[test]
fn error_spans_cover_the_halt_position() {
    // the bad binary digit sits at byte 2 and the span reaches it
    let e = scan_err("0b2");
    assert_eq!(e.span.start, 0);
    assert!(2 <= e.span.end && e.span.end <= 3);
    // an unterminated comment halts at the end of the input
    let e = scan_err("/* open");
    assert_eq!(e.span.start, 0);
    assert_eq!(e.span.end, 7);
}
