[package]
name = "ecma_lexer"
version = "0.1.0"
edition = "2021"
publish = false

[dependencies]
num-bigint = "0.4"
unicode-ident = "1"
unicode-general-category = "*"
