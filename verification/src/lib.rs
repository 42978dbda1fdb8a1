//! A lossless lexical analyzer for ECMAScript source text.
//!
//! The scanner consumes a UTF-8 byte sequence and produces an ordered token
//! sequence whose lexemes, concatenated, reproduce the input byte for byte.

pub mod bigint;
pub mod laws;
pub mod lexer_base;
pub mod lexer_errors;
pub mod lexer_numeric;
pub mod lexer_regex;
pub mod lexer_string;
pub mod number_literal;
pub mod string_utils;
pub mod tables;
pub mod tokens;
pub mod text;
pub mod unicode;
pub mod utf8_cursor;
