use ecma_lexer::lexer_base::Lexer;
use ecma_lexer::lexer_numeric::NumberResult;
use ecma_lexer::tokens::{NumericBase, Token, TokenKind};
use ecma_lexer::utf8_cursor::Utf8Cursor;

fn number_result_to_string(result: NumberResult) -> String {
    format!(
        "{}|{}|{}",
        String::from_utf8(result.buffer).unwrap(),
        String::from_utf8(result.no_raw_value).unwrap(),
        result.is_bigint
    )
}

fn token_to_string(result: Token) -> String {
    match &result.kind {
        TokenKind::NumericLiteral {
            canonical,
            base,
            is_bigint,
            ..
        } => {
            if *is_bigint {
                let v = result.bigint_value().unwrap().to_str_radix(10);
                format!("NumericLiteral({}n)", v)
            } else {
                let digits = String::from_utf8(canonical.clone()).unwrap();
                let value: f64 = match base {
                    NumericBase::Decimal => digits.parse::<f64>().unwrap(),
                    NumericBase::Hex => i64::from_str_radix(&digits, 16).unwrap() as f64,
                    NumericBase::Binary => i64::from_str_radix(&digits, 2).unwrap() as f64,
                    NumericBase::Octal => i64::from_str_radix(&digits, 8).unwrap() as f64,
                };
                format!("NumericLiteral({})", value)
            }
        }
        other => format!("{:?}", other),
    }
}

#[test]
fn test_binary_literal() {
    let mut lexer = Lexer::new();

    assert_eq!(
        number_result_to_string(
            lexer
                .read_binary_literal(
                    &mut Utf8Cursor::new("101010"),
                    "0b".as_bytes().to_vec(),
                    Vec::new(),
                    0
                )
                .unwrap()
        ),
        "0b101010|101010|false"
    );
    assert_eq!(
        token_to_string(
            lexer
                .read_numeric_literal(&mut Utf8Cursor::new("0b101010"))
                .unwrap()
        ),
        "NumericLiteral(42)"
    );
}

#[test]
fn test_hex_literal() {
    let mut lexer = Lexer::new();
    let data = [
        ["0x123", "291"],
        ["0x123654", "1193556"],
        ["0x123654n", "1193556n"],
    ];

    for data in data {
        assert_eq!(
            token_to_string(
                lexer
                    .read_numeric_literal(&mut Utf8Cursor::new(data[0]))
                    .unwrap()
            ),
            format!("NumericLiteral({})", data[1])
        );
    }
}

#[test]
fn test_octal_literal() {
    let mut lexer = Lexer::new();
    let data = [["0132", "90"], ["0o132", "90"]];

    for data in data {
        assert_eq!(
            token_to_string(
                lexer
                    .read_numeric_literal(&mut Utf8Cursor::new(data[0]))
                    .unwrap()
            ),
            format!("NumericLiteral({})", data[1])
        );
    }
}

#[test]
fn test_decimal_literal() {
    let mut lexer = Lexer::new();
    let data = [
        ["1", "1"],
        ["1.2", "1.2"],
        [".1", "0.1"],
        ["1.2e3", "1200"],
        ["1.2e-3", "0.0012"],
        ["1.2e+3", "1200"],
    ];

    for data in data {
        assert_eq!(
            token_to_string(
                lexer
                    .read_numeric_literal(&mut Utf8Cursor::new(data[0]))
                    .unwrap()
            ),
            format!("NumericLiteral({})", data[1])
        );
    }
}
