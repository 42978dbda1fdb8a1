//! The keyword and operator tables: bidirectional maps between lexemes and
//! enumerated variants, with exact contracts over the spec-level tables.

use vstd::prelude::*;
use crate::text::str_eq;

verus! {

#[derive(Debug, Clone, Copy, PartialEq, Eq, Structural)]
pub enum KeywordEnum {
    Break,
    Case,
    Catch,
    Get,
    Setter,
    Class,
    Const,
    Continue,
    Debugger,
    Default,
    Delete,
    Do,
    Else,
    Export,
    Extends,
    Finally,
    For,
    Function,
    If,
    Import,
    In,
    Instanceof,
    New,
    Return,
    Super,
    Switch,
    This,
    Throw,
    Try,
    Typeof,
    Var,
    Void,
    While,
    With,
    Yield,
    Implements,
    Interface,
    Let,
    Package,
    Private,
    Protected,
    Public,
    Static,
    Await,
    Async,
    True,
    False,
    Null,
}

/// The reserved word that each keyword variant stands for.
pub open spec fn spec_keyword_text(k: KeywordEnum) -> Seq<char> {
    match k {
        KeywordEnum::Break => "break"@,
        KeywordEnum::Case => "case"@,
        KeywordEnum::Catch => "catch"@,
        KeywordEnum::Get => "get"@,
        KeywordEnum::Setter => "set"@,
        KeywordEnum::Class => "class"@,
        KeywordEnum::Const => "const"@,
        KeywordEnum::Continue => "continue"@,
        KeywordEnum::Debugger => "debugger"@,
        KeywordEnum::Default => "default"@,
        KeywordEnum::Delete => "delete"@,
        KeywordEnum::Do => "do"@,
        KeywordEnum::Else => "else"@,
        KeywordEnum::Export => "export"@,
        KeywordEnum::Extends => "extends"@,
        KeywordEnum::Finally => "finally"@,
        KeywordEnum::For => "for"@,
        KeywordEnum::Function => "function"@,
        KeywordEnum::If => "if"@,
        KeywordEnum::Import => "import"@,
        KeywordEnum::In => "in"@,
        KeywordEnum::Instanceof => "instanceof"@,
        KeywordEnum::New => "new"@,
        KeywordEnum::Return => "return"@,
        KeywordEnum::Super => "super"@,
        KeywordEnum::Switch => "switch"@,
        KeywordEnum::This => "this"@,
        KeywordEnum::Throw => "throw"@,
        KeywordEnum::Try => "try"@,
        KeywordEnum::Typeof => "typeof"@,
        KeywordEnum::Var => "var"@,
        KeywordEnum::Void => "void"@,
        KeywordEnum::While => "while"@,
        KeywordEnum::With => "with"@,
        KeywordEnum::Yield => "yield"@,
        KeywordEnum::Implements => "implements"@,
        KeywordEnum::Interface => "interface"@,
        KeywordEnum::Let => "let"@,
        KeywordEnum::Package => "package"@,
        KeywordEnum::Private => "private"@,
        KeywordEnum::Protected => "protected"@,
        KeywordEnum::Public => "public"@,
        KeywordEnum::Static => "static"@,
        KeywordEnum::Await => "await"@,
        KeywordEnum::Async => "async"@,
        KeywordEnum::True => "true"@,
        KeywordEnum::False => "false"@,
        KeywordEnum::Null => "null"@,
    }
}

/// The keyword table: the variant whose reserved word is `s`, if any.
pub open spec fn spec_keyword(s: Seq<char>) -> Option<KeywordEnum> {
    if s == "break"@ {
        Some(KeywordEnum::Break)
    } else if s == "case"@ {
        Some(KeywordEnum::Case)
    } else if s == "catch"@ {
        Some(KeywordEnum::Catch)
    } else if s == "get"@ {
        Some(KeywordEnum::Get)
    } else if s == "set"@ {
        Some(KeywordEnum::Setter)
    } else if s == "class"@ {
        Some(KeywordEnum::Class)
    } else if s == "const"@ {
        Some(KeywordEnum::Const)
    } else if s == "continue"@ {
        Some(KeywordEnum::Continue)
    } else if s == "debugger"@ {
        Some(KeywordEnum::Debugger)
    } else if s == "default"@ {
        Some(KeywordEnum::Default)
    } else if s == "delete"@ {
        Some(KeywordEnum::Delete)
    } else if s == "do"@ {
        Some(KeywordEnum::Do)
    } else if s == "else"@ {
        Some(KeywordEnum::Else)
    } else if s == "export"@ {
        Some(KeywordEnum::Export)
    } else if s == "extends"@ {
        Some(KeywordEnum::Extends)
    } else if s == "finally"@ {
        Some(KeywordEnum::Finally)
    } else if s == "for"@ {
        Some(KeywordEnum::For)
    } else if s == "function"@ {
        Some(KeywordEnum::Function)
    } else if s == "if"@ {
        Some(KeywordEnum::If)
    } else if s == "import"@ {
        Some(KeywordEnum::Import)
    } else if s == "in"@ {
        Some(KeywordEnum::In)
    } else if s == "instanceof"@ {
        Some(KeywordEnum::Instanceof)
    } else if s == "new"@ {
        Some(KeywordEnum::New)
    } else if s == "return"@ {
        Some(KeywordEnum::Return)
    } else if s == "super"@ {
        Some(KeywordEnum::Super)
    } else if s == "switch"@ {
        Some(KeywordEnum::Switch)
    } else if s == "this"@ {
        Some(KeywordEnum::This)
    } else if s == "throw"@ {
        Some(KeywordEnum::Throw)
    } else if s == "try"@ {
        Some(KeywordEnum::Try)
    } else if s == "typeof"@ {
        Some(KeywordEnum::Typeof)
    } else if s == "var"@ {
        Some(KeywordEnum::Var)
    } else if s == "void"@ {
        Some(KeywordEnum::Void)
    } else if s == "while"@ {
        Some(KeywordEnum::While)
    } else if s == "with"@ {
        Some(KeywordEnum::With)
    } else if s == "yield"@ {
        Some(KeywordEnum::Yield)
    } else if s == "implements"@ {
        Some(KeywordEnum::Implements)
    } else if s == "interface"@ {
        Some(KeywordEnum::Interface)
    } else if s == "let"@ {
        Some(KeywordEnum::Let)
    } else if s == "package"@ {
        Some(KeywordEnum::Package)
    } else if s == "private"@ {
        Some(KeywordEnum::Private)
    } else if s == "protected"@ {
        Some(KeywordEnum::Protected)
    } else if s == "public"@ {
        Some(KeywordEnum::Public)
    } else if s == "static"@ {
        Some(KeywordEnum::Static)
    } else if s == "await"@ {
        Some(KeywordEnum::Await)
    } else if s == "async"@ {
        Some(KeywordEnum::Async)
    } else if s == "true"@ {
        Some(KeywordEnum::True)
    } else if s == "false"@ {
        Some(KeywordEnum::False)
    } else if s == "null"@ {
        Some(KeywordEnum::Null)
    } else {
        None
    }
}

impl KeywordEnum {
    /// Looks a word up in the keyword table.
    pub fn from_str(s: &str) -> (r: Option<KeywordEnum>)
        ensures
            r == spec_keyword(s@),
    {
        if str_eq(s, "break") {
            Some(KeywordEnum::Break)
        } else if str_eq(s, "case") {
            Some(KeywordEnum::Case)
        } else if str_eq(s, "catch") {
            Some(KeywordEnum::Catch)
        } else if str_eq(s, "get") {
            Some(KeywordEnum::Get)
        } else if str_eq(s, "set") {
            Some(KeywordEnum::Setter)
        } else if str_eq(s, "class") {
            Some(KeywordEnum::Class)
        } else if str_eq(s, "const") {
            Some(KeywordEnum::Const)
        } else if str_eq(s, "continue") {
            Some(KeywordEnum::Continue)
        } else if str_eq(s, "debugger") {
            Some(KeywordEnum::Debugger)
        } else if str_eq(s, "default") {
            Some(KeywordEnum::Default)
        } else if str_eq(s, "delete") {
            Some(KeywordEnum::Delete)
        } else if str_eq(s, "do") {
            Some(KeywordEnum::Do)
        } else if str_eq(s, "else") {
            Some(KeywordEnum::Else)
        } else if str_eq(s, "export") {
            Some(KeywordEnum::Export)
        } else if str_eq(s, "extends") {
            Some(KeywordEnum::Extends)
        } else if str_eq(s, "finally") {
            Some(KeywordEnum::Finally)
        } else if str_eq(s, "for") {
            Some(KeywordEnum::For)
        } else if str_eq(s, "function") {
            Some(KeywordEnum::Function)
        } else if str_eq(s, "if") {
            Some(KeywordEnum::If)
        } else if str_eq(s, "import") {
            Some(KeywordEnum::Import)
        } else if str_eq(s, "in") {
            Some(KeywordEnum::In)
        } else if str_eq(s, "instanceof") {
            Some(KeywordEnum::Instanceof)
        } else if str_eq(s, "new") {
            Some(KeywordEnum::New)
        } else if str_eq(s, "return") {
            Some(KeywordEnum::Return)
        } else if str_eq(s, "super") {
            Some(KeywordEnum::Super)
        } else if str_eq(s, "switch") {
            Some(KeywordEnum::Switch)
        } else if str_eq(s, "this") {
            Some(KeywordEnum::This)
        } else if str_eq(s, "throw") {
            Some(KeywordEnum::Throw)
        } else if str_eq(s, "try") {
            Some(KeywordEnum::Try)
        } else if str_eq(s, "typeof") {
            Some(KeywordEnum::Typeof)
        } else if str_eq(s, "var") {
            Some(KeywordEnum::Var)
        } else if str_eq(s, "void") {
            Some(KeywordEnum::Void)
        } else if str_eq(s, "while") {
            Some(KeywordEnum::While)
        } else if str_eq(s, "with") {
            Some(KeywordEnum::With)
        } else if str_eq(s, "yield") {
            Some(KeywordEnum::Yield)
        } else if str_eq(s, "implements") {
            Some(KeywordEnum::Implements)
        } else if str_eq(s, "interface") {
            Some(KeywordEnum::Interface)
        } else if str_eq(s, "let") {
            Some(KeywordEnum::Let)
        } else if str_eq(s, "package") {
            Some(KeywordEnum::Package)
        } else if str_eq(s, "private") {
            Some(KeywordEnum::Private)
        } else if str_eq(s, "protected") {
            Some(KeywordEnum::Protected)
        } else if str_eq(s, "public") {
            Some(KeywordEnum::Public)
        } else if str_eq(s, "static") {
            Some(KeywordEnum::Static)
        } else if str_eq(s, "await") {
            Some(KeywordEnum::Await)
        } else if str_eq(s, "async") {
            Some(KeywordEnum::Async)
        } else if str_eq(s, "true") {
            Some(KeywordEnum::True)
        } else if str_eq(s, "false") {
            Some(KeywordEnum::False)
        } else if str_eq(s, "null") {
            Some(KeywordEnum::Null)
        } else {
            None
        }
    }

    /// The reserved word of this variant.
    pub fn as_str(&self) -> (r: &'static str)
        ensures
            r@ == spec_keyword_text(*self),
    {
        match self {
            KeywordEnum::Break => "break",
            KeywordEnum::Case => "case",
            KeywordEnum::Catch => "catch",
            KeywordEnum::Get => "get",
            KeywordEnum::Setter => "set",
            KeywordEnum::Class => "class",
            KeywordEnum::Const => "const",
            KeywordEnum::Continue => "continue",
            KeywordEnum::Debugger => "debugger",
            KeywordEnum::Default => "default",
            KeywordEnum::Delete => "delete",
            KeywordEnum::Do => "do",
            KeywordEnum::Else => "else",
            KeywordEnum::Export => "export",
            KeywordEnum::Extends => "extends",
            KeywordEnum::Finally => "finally",
            KeywordEnum::For => "for",
            KeywordEnum::Function => "function",
            KeywordEnum::If => "if",
            KeywordEnum::Import => "import",
            KeywordEnum::In => "in",
            KeywordEnum::Instanceof => "instanceof",
            KeywordEnum::New => "new",
            KeywordEnum::Return => "return",
            KeywordEnum::Super => "super",
            KeywordEnum::Switch => "switch",
            KeywordEnum::This => "this",
            KeywordEnum::Throw => "throw",
            KeywordEnum::Try => "try",
            KeywordEnum::Typeof => "typeof",
            KeywordEnum::Var => "var",
            KeywordEnum::Void => "void",
            KeywordEnum::While => "while",
            KeywordEnum::With => "with",
            KeywordEnum::Yield => "yield",
            KeywordEnum::Implements => "implements",
            KeywordEnum::Interface => "interface",
            KeywordEnum::Let => "let",
            KeywordEnum::Package => "package",
            KeywordEnum::Private => "private",
            KeywordEnum::Protected => "protected",
            KeywordEnum::Public => "public",
            KeywordEnum::Static => "static",
            KeywordEnum::Await => "await",
            KeywordEnum::Async => "async",
            KeywordEnum::True => "true",
            KeywordEnum::False => "false",
            KeywordEnum::Null => "null",
        }
    }
}

/// A hit in the keyword table is the reserved word of the variant it yields.
pub proof fn lemma_keyword_text(s: Seq<char>)
    ensures
        spec_keyword(s) matches Some(k) ==> spec_keyword_text(k) == s,
{
}

#[derive(Debug, Clone, Copy, PartialEq, Eq, Structural)]
pub enum OperatorEnum {
    Plus,
    Minus,
    Star,
    Slash,
    Percent,
    Punctuator,
    Comma,
    Colon,
    Semicolon,
    Question,
    Tilde,
    Exclamation,
    Equal,
    Ampersand,
    Pipe,
    Caret,
    LessThan,
    GreaterThan,
    LeftParen,
    RightParen,
    LeftBrace,
    RightBrace,
    LeftBracket,
    RightBracket,
    Backtick,
    Dollar,
    Sharp,
    EqualEqual,
    NotEqual,
    LessThanEqual,
    GreaterThanEqual,
    LogicalAnd,
    LogicalOr,
    PlusPlus,
    MinusMinus,
    ShiftLeft,
    ShiftRight,
    AssignAdd,
    AssignSub,
    AssignMul,
    AssignDiv,
    AssignMod,
    AssignAnd,
    AssignOr,
    AssignXor,
    AssignShiftLeft,
    AssignShiftRight,
    StrictEqual,
    StrictNotEqual,
    ShiftRightUnsigned,
    Exponent,
    AssignExponent,
    Arrow,
    Ellipsis,
    AssignShiftRightUnsigned,
}

/// The punctuator lexeme that each operator variant stands for.
pub open spec fn spec_operator_text(op: OperatorEnum) -> Seq<char> {
    match op {
        OperatorEnum::Plus => "+"@,
        OperatorEnum::Minus => "-"@,
        OperatorEnum::Star => "*"@,
        OperatorEnum::Slash => "/"@,
        OperatorEnum::Percent => "%"@,
        OperatorEnum::Punctuator => "."@,
        OperatorEnum::Comma => ","@,
        OperatorEnum::Colon => ":"@,
        OperatorEnum::Semicolon => ";"@,
        OperatorEnum::Question => "?"@,
        OperatorEnum::Tilde => "~"@,
        OperatorEnum::Exclamation => "!"@,
        OperatorEnum::Equal => "="@,
        OperatorEnum::Ampersand => "&"@,
        OperatorEnum::Pipe => "|"@,
        OperatorEnum::Caret => "^"@,
        OperatorEnum::LessThan => "<"@,
        OperatorEnum::GreaterThan => ">"@,
        OperatorEnum::LeftParen => "("@,
        OperatorEnum::RightParen => ")"@,
        OperatorEnum::LeftBrace => "{"@,
        OperatorEnum::RightBrace => "}"@,
        OperatorEnum::LeftBracket => "["@,
        OperatorEnum::RightBracket => "]"@,
        OperatorEnum::Backtick => "`"@,
        OperatorEnum::Dollar => "$"@,
        OperatorEnum::Sharp => "#"@,
        OperatorEnum::EqualEqual => "=="@,
        OperatorEnum::NotEqual => "!="@,
        OperatorEnum::LessThanEqual => "<="@,
        OperatorEnum::GreaterThanEqual => ">="@,
        OperatorEnum::LogicalAnd => "&&"@,
        OperatorEnum::LogicalOr => "||"@,
        OperatorEnum::PlusPlus => "++"@,
        OperatorEnum::MinusMinus => "--"@,
        OperatorEnum::ShiftLeft => "<<"@,
        OperatorEnum::ShiftRight => ">>"@,
        OperatorEnum::AssignAdd => "+="@,
        OperatorEnum::AssignSub => "-="@,
        OperatorEnum::AssignMul => "*="@,
        OperatorEnum::AssignDiv => "/="@,
        OperatorEnum::AssignMod => "%="@,
        OperatorEnum::AssignAnd => "&="@,
        OperatorEnum::AssignOr => "|="@,
        OperatorEnum::AssignXor => "^="@,
        OperatorEnum::AssignShiftLeft => "<<="@,
        OperatorEnum::AssignShiftRight => ">>="@,
        OperatorEnum::StrictEqual => "==="@,
        OperatorEnum::StrictNotEqual => "!=="@,
        OperatorEnum::ShiftRightUnsigned => ">>>"@,
        OperatorEnum::Exponent => "**"@,
        OperatorEnum::AssignExponent => "**="@,
        OperatorEnum::Arrow => "=>"@,
        OperatorEnum::Ellipsis => "..."@,
        OperatorEnum::AssignShiftRightUnsigned => ">>>="@,
    }
}

/// The operator table: the variant whose lexeme is `s`, if any.
pub open spec fn spec_operator(s: Seq<char>) -> Option<OperatorEnum> {
    if s == "+"@ {
        Some(OperatorEnum::Plus)
    } else if s == "-"@ {
        Some(OperatorEnum::Minus)
    } else if s == "*"@ {
        Some(OperatorEnum::Star)
    } else if s == "/"@ {
        Some(OperatorEnum::Slash)
    } else if s == "%"@ {
        Some(OperatorEnum::Percent)
    } else if s == "."@ {
        Some(OperatorEnum::Punctuator)
    } else if s == ","@ {
        Some(OperatorEnum::Comma)
    } else if s == ":"@ {
        Some(OperatorEnum::Colon)
    } else if s == ";"@ {
        Some(OperatorEnum::Semicolon)
    } else if s == "?"@ {
        Some(OperatorEnum::Question)
    } else if s == "~"@ {
        Some(OperatorEnum::Tilde)
    } else if s == "!"@ {
        Some(OperatorEnum::Exclamation)
    } else if s == "="@ {
        Some(OperatorEnum::Equal)
    } else if s == "&"@ {
        Some(OperatorEnum::Ampersand)
    } else if s == "|"@ {
        Some(OperatorEnum::Pipe)
    } else if s == "^"@ {
        Some(OperatorEnum::Caret)
    } else if s == "<"@ {
        Some(OperatorEnum::LessThan)
    } else if s == ">"@ {
        Some(OperatorEnum::GreaterThan)
    } else if s == "("@ {
        Some(OperatorEnum::LeftParen)
    } else if s == ")"@ {
        Some(OperatorEnum::RightParen)
    } else if s == "{"@ {
        Some(OperatorEnum::LeftBrace)
    } else if s == "}"@ {
        Some(OperatorEnum::RightBrace)
    } else if s == "["@ {
        Some(OperatorEnum::LeftBracket)
    } else if s == "]"@ {
        Some(OperatorEnum::RightBracket)
    } else if s == "`"@ {
        Some(OperatorEnum::Backtick)
    } else if s == "$"@ {
        Some(OperatorEnum::Dollar)
    } else if s == "#"@ {
        Some(OperatorEnum::Sharp)
    } else if s == "=="@ {
        Some(OperatorEnum::EqualEqual)
    } else if s == "!="@ {
        Some(OperatorEnum::NotEqual)
    } else if s == "<="@ {
        Some(OperatorEnum::LessThanEqual)
    } else if s == ">="@ {
        Some(OperatorEnum::GreaterThanEqual)
    } else if s == "&&"@ {
        Some(OperatorEnum::LogicalAnd)
    } else if s == "||"@ {
        Some(OperatorEnum::LogicalOr)
    } else if s == "++"@ {
        Some(OperatorEnum::PlusPlus)
    } else if s == "--"@ {
        Some(OperatorEnum::MinusMinus)
    } else if s == "<<"@ {
        Some(OperatorEnum::ShiftLeft)
    } else if s == ">>"@ {
        Some(OperatorEnum::ShiftRight)
    } else if s == "+="@ {
        Some(OperatorEnum::AssignAdd)
    } else if s == "-="@ {
        Some(OperatorEnum::AssignSub)
    } else if s == "*="@ {
        Some(OperatorEnum::AssignMul)
    } else if s == "/="@ {
        Some(OperatorEnum::AssignDiv)
    } else if s == "%="@ {
        Some(OperatorEnum::AssignMod)
    } else if s == "&="@ {
        Some(OperatorEnum::AssignAnd)
    } else if s == "|="@ {
        Some(OperatorEnum::AssignOr)
    } else if s == "^="@ {
        Some(OperatorEnum::AssignXor)
    } else if s == "<<="@ {
        Some(OperatorEnum::AssignShiftLeft)
    } else if s == ">>="@ {
        Some(OperatorEnum::AssignShiftRight)
    } else if s == "==="@ {
        Some(OperatorEnum::StrictEqual)
    } else if s == "!=="@ {
        Some(OperatorEnum::StrictNotEqual)
    } else if s == ">>>"@ {
        Some(OperatorEnum::ShiftRightUnsigned)
    } else if s == "**"@ {
        Some(OperatorEnum::Exponent)
    } else if s == "**="@ {
        Some(OperatorEnum::AssignExponent)
    } else if s == "=>"@ {
        Some(OperatorEnum::Arrow)
    } else if s == "..."@ {
        Some(OperatorEnum::Ellipsis)
    } else if s == ">>>="@ {
        Some(OperatorEnum::AssignShiftRightUnsigned)
    } else {
        None
    }
}

impl OperatorEnum {
    /// Looks a lexeme up in the operator table.
    pub fn from_str(s: &str) -> (r: Option<OperatorEnum>)
        ensures
            r == spec_operator(s@),
    {
        if str_eq(s, "+") {
            Some(OperatorEnum::Plus)
        } else if str_eq(s, "-") {
            Some(OperatorEnum::Minus)
        } else if str_eq(s, "*") {
            Some(OperatorEnum::Star)
        } else if str_eq(s, "/") {
            Some(OperatorEnum::Slash)
        } else if str_eq(s, "%") {
            Some(OperatorEnum::Percent)
        } else if str_eq(s, ".") {
            Some(OperatorEnum::Punctuator)
        } else if str_eq(s, ",") {
            Some(OperatorEnum::Comma)
        } else if str_eq(s, ":") {
            Some(OperatorEnum::Colon)
        } else if str_eq(s, ";") {
            Some(OperatorEnum::Semicolon)
        } else if str_eq(s, "?") {
            Some(OperatorEnum::Question)
        } else if str_eq(s, "~") {
            Some(OperatorEnum::Tilde)
        } else if str_eq(s, "!") {
            Some(OperatorEnum::Exclamation)
        } else if str_eq(s, "=") {
            Some(OperatorEnum::Equal)
        } else if str_eq(s, "&") {
            Some(OperatorEnum::Ampersand)
        } else if str_eq(s, "|") {
            Some(OperatorEnum::Pipe)
        } else if str_eq(s, "^") {
            Some(OperatorEnum::Caret)
        } else if str_eq(s, "<") {
            Some(OperatorEnum::LessThan)
        } else if str_eq(s, ">") {
            Some(OperatorEnum::GreaterThan)
        } else if str_eq(s, "(") {
            Some(OperatorEnum::LeftParen)
        } else if str_eq(s, ")") {
            Some(OperatorEnum::RightParen)
        } else if str_eq(s, "{") {
            Some(OperatorEnum::LeftBrace)
        } else if str_eq(s, "}") {
            Some(OperatorEnum::RightBrace)
        } else if str_eq(s, "[") {
            Some(OperatorEnum::LeftBracket)
        } else if str_eq(s, "]") {
            Some(OperatorEnum::RightBracket)
        } else if str_eq(s, "`") {
            Some(OperatorEnum::Backtick)
        } else if str_eq(s, "$") {
            Some(OperatorEnum::Dollar)
        } else if str_eq(s, "#") {
            Some(OperatorEnum::Sharp)
        } else if str_eq(s, "==") {
            Some(OperatorEnum::EqualEqual)
        } else if str_eq(s, "!=") {
            Some(OperatorEnum::NotEqual)
        } else if str_eq(s, "<=") {
            Some(OperatorEnum::LessThanEqual)
        } else if str_eq(s, ">=") {
            Some(OperatorEnum::GreaterThanEqual)
        } else if str_eq(s, "&&") {
            Some(OperatorEnum::LogicalAnd)
        } else if str_eq(s, "||") {
            Some(OperatorEnum::LogicalOr)
        } else if str_eq(s, "++") {
            Some(OperatorEnum::PlusPlus)
        } else if str_eq(s, "--") {
            Some(OperatorEnum::MinusMinus)
        } else if str_eq(s, "<<") {
            Some(OperatorEnum::ShiftLeft)
        } else if str_eq(s, ">>") {
            Some(OperatorEnum::ShiftRight)
        } else if str_eq(s, "+=") {
            Some(OperatorEnum::AssignAdd)
        } else if str_eq(s, "-=") {
            Some(OperatorEnum::AssignSub)
        } else if str_eq(s, "*=") {
            Some(OperatorEnum::AssignMul)
        } else if str_eq(s, "/=") {
            Some(OperatorEnum::AssignDiv)
        } else if str_eq(s, "%=") {
            Some(OperatorEnum::AssignMod)
        } else if str_eq(s, "&=") {
            Some(OperatorEnum::AssignAnd)
        } else if str_eq(s, "|=") {
            Some(OperatorEnum::AssignOr)
        } else if str_eq(s, "^=") {
            Some(OperatorEnum::AssignXor)
        } else if str_eq(s, "<<=") {
            Some(OperatorEnum::AssignShiftLeft)
        } else if str_eq(s, ">>=") {
            Some(OperatorEnum::AssignShiftRight)
        } else if str_eq(s, "===") {
            Some(OperatorEnum::StrictEqual)
        } else if str_eq(s, "!==") {
            Some(OperatorEnum::StrictNotEqual)
        } else if str_eq(s, ">>>") {
            Some(OperatorEnum::ShiftRightUnsigned)
        } else if str_eq(s, "**") {
            Some(OperatorEnum::Exponent)
        } else if str_eq(s, "**=") {
            Some(OperatorEnum::AssignExponent)
        } else if str_eq(s, "=>") {
            Some(OperatorEnum::Arrow)
        } else if str_eq(s, "...") {
            Some(OperatorEnum::Ellipsis)
        } else if str_eq(s, ">>>=") {
            Some(OperatorEnum::AssignShiftRightUnsigned)
        } else {
            None
        }
    }

    /// The lexeme of this operator.
    pub fn as_str(&self) -> (r: &'static str)
        ensures
            r@ == spec_operator_text(*self),
    {
        match self {
            OperatorEnum::Plus => "+",
            OperatorEnum::Minus => "-",
            OperatorEnum::Star => "*",
            OperatorEnum::Slash => "/",
            OperatorEnum::Percent => "%",
            OperatorEnum::Punctuator => ".",
            OperatorEnum::Comma => ",",
            OperatorEnum::Colon => ":",
            OperatorEnum::Semicolon => ";",
            OperatorEnum::Question => "?",
            OperatorEnum::Tilde => "~",
            OperatorEnum::Exclamation => "!",
            OperatorEnum::Equal => "=",
            OperatorEnum::Ampersand => "&",
            OperatorEnum::Pipe => "|",
            OperatorEnum::Caret => "^",
            OperatorEnum::LessThan => "<",
            OperatorEnum::GreaterThan => ">",
            OperatorEnum::LeftParen => "(",
            OperatorEnum::RightParen => ")",
            OperatorEnum::LeftBrace => "{",
            OperatorEnum::RightBrace => "}",
            OperatorEnum::LeftBracket => "[",
            OperatorEnum::RightBracket => "]",
            OperatorEnum::Backtick => "`",
            OperatorEnum::Dollar => "$",
            OperatorEnum::Sharp => "#",
            OperatorEnum::EqualEqual => "==",
            OperatorEnum::NotEqual => "!=",
            OperatorEnum::LessThanEqual => "<=",
            OperatorEnum::GreaterThanEqual => ">=",
            OperatorEnum::LogicalAnd => "&&",
            OperatorEnum::LogicalOr => "||",
            OperatorEnum::PlusPlus => "++",
            OperatorEnum::MinusMinus => "--",
            OperatorEnum::ShiftLeft => "<<",
            OperatorEnum::ShiftRight => ">>",
            OperatorEnum::AssignAdd => "+=",
            OperatorEnum::AssignSub => "-=",
            OperatorEnum::AssignMul => "*=",
            OperatorEnum::AssignDiv => "/=",
            OperatorEnum::AssignMod => "%=",
            OperatorEnum::AssignAnd => "&=",
            OperatorEnum::AssignOr => "|=",
            OperatorEnum::AssignXor => "^=",
            OperatorEnum::AssignShiftLeft => "<<=",
            OperatorEnum::AssignShiftRight => ">>=",
            OperatorEnum::StrictEqual => "===",
            OperatorEnum::StrictNotEqual => "!==",
            OperatorEnum::ShiftRightUnsigned => ">>>",
            OperatorEnum::Exponent => "**",
            OperatorEnum::AssignExponent => "**=",
            OperatorEnum::Arrow => "=>",
            OperatorEnum::Ellipsis => "...",
            OperatorEnum::AssignShiftRightUnsigned => ">>>=",
        }
    }
}


/// A hit in the operator table is the lexeme of the variant it yields.
pub proof fn lemma_operator_text(s: Seq<char>)
    ensures
        spec_operator(s) matches Some(op) ==> spec_operator_text(op) == s,
{
}

} // verus!
