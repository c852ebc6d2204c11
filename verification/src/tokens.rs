//! The tokens that the lexer produces.
use vstd::prelude::*;

use crate::position::Position;

verus! {

#[derive(Debug, PartialEq, Eq, Clone, Copy, Structural)]
pub enum TokenCategory {
    // Comparison
    Greater,
    GreaterOrEqual,
    Less,
    LessOrEqual,
    Equal,
    NotEqual,
    // Arithmetic
    Plus,
    Minus,
    Multiply,
    Divide,
    // Boolean arithmetic
    Negate,
    And,
    Or,
    // Parentheses
    ParenOpen,
    ParenClose,
    BracketOpen,
    BracketClose,
    BraceOpen,
    BraceClose,
    // Keywords
    For,
    While,
    If,
    Else,
    As,
    Fn,
    True,
    False,
    Return,
    Switch,
    Break,
    // Type keywords
    Bool,
    String,
    I64,
    F64,
    Void,
    // Others
    Assign,
    Colon,
    Semicolon,
    Comma,
    Reference,
    Arrow,
    STX,
    ETX,
    // Complex
    Identifier,
    Comment,
    // Literals
    StringValue,
    I64Value,
    F64Value,
}

/// A floating point literal as written: `integral.fraction`, where the
/// fraction was written with `fraction_digits` digits (so `0.05` has
/// fraction 5 and two fraction digits). Its value is
/// `integral + fraction / 10^fraction_digits`.
#[derive(Debug, PartialEq, Eq, Clone, Copy, Structural)]
pub struct FloatLiteral {
    pub integral: i64,
    pub fraction: i64,
    pub fraction_digits: i64,
}

#[derive(Debug, PartialEq, Clone)]
pub enum TokenValue {
    String(String),
    Bool(bool),
    F64(FloatLiteral),
    I64(i64),
    Null,
}

#[derive(Debug, PartialEq, Clone)]
pub struct Token {
    pub category: TokenCategory,
    pub value: TokenValue,
    pub position: Position,
}

impl TokenValue {
    /// A copy of the value.
    pub fn duplicate(&self) -> (r: Self)
        ensures
            r == *self,
    {
        match self {
            TokenValue::String(s) => TokenValue::String(s.clone()),
            TokenValue::Bool(b) => TokenValue::Bool(*b),
            TokenValue::F64(f) => TokenValue::F64(*f),
            TokenValue::I64(i) => TokenValue::I64(*i),
            TokenValue::Null => TokenValue::Null,
        }
    }
}

impl Token {
    /// A copy of the token.
    pub fn duplicate(&self) -> (r: Self)
        ensures
            r == *self,
    {
        Token { category: self.category, value: self.value.duplicate(), position: self.position }
    }
}

/// How a category is named in messages: the symbol for signs and operators,
/// the word for keywords.
pub open spec fn spec_category_text(category: TokenCategory) -> Seq<char> {
    match category {
        TokenCategory::Greater => ">"@,
        TokenCategory::GreaterOrEqual => ">="@,
        TokenCategory::Less => "<"@,
        TokenCategory::LessOrEqual => "<="@,
        TokenCategory::Equal => "=="@,
        TokenCategory::NotEqual => "!="@,
        TokenCategory::Plus => "+"@,
        TokenCategory::Minus => "-"@,
        TokenCategory::Multiply => "*"@,
        TokenCategory::Divide => "/"@,
        TokenCategory::Negate => "!"@,
        TokenCategory::And => "&&"@,
        TokenCategory::Or => "||"@,
        TokenCategory::ParenOpen => "("@,
        TokenCategory::ParenClose => ")"@,
        TokenCategory::BracketOpen => "["@,
        TokenCategory::BracketClose => "]"@,
        TokenCategory::BraceOpen => "{"@,
        TokenCategory::BraceClose => "}"@,
        TokenCategory::For => "for"@,
        TokenCategory::While => "while"@,
        TokenCategory::If => "if"@,
        TokenCategory::Else => "else"@,
        TokenCategory::As => "as"@,
        TokenCategory::Fn => "fn"@,
        TokenCategory::True => "true"@,
        TokenCategory::False => "false"@,
        TokenCategory::Return => "return"@,
        TokenCategory::Switch => "switch"@,
        TokenCategory::Break => "break"@,
        TokenCategory::Bool => "bool"@,
        TokenCategory::String => "str"@,
        TokenCategory::I64 => "i64"@,
        TokenCategory::F64 => "f64"@,
        TokenCategory::Void => "void"@,
        TokenCategory::Assign => "="@,
        TokenCategory::Colon => ":"@,
        TokenCategory::Semicolon => ";"@,
        TokenCategory::Comma => ","@,
        TokenCategory::Reference => "&"@,
        TokenCategory::Arrow => "->"@,
        TokenCategory::STX => "STX"@,
        TokenCategory::ETX => "ETX"@,
        TokenCategory::Identifier => "identifier"@,
        TokenCategory::Comment => "comment"@,
        TokenCategory::StringValue => "string"@,
        TokenCategory::I64Value => "i64 value"@,
        TokenCategory::F64Value => "f64 value"@,
    }
}

impl TokenCategory {
    /// The category's name in messages.
    pub fn text(&self) -> (s: &'static str)
        ensures
            s@ == spec_category_text(*self),
    {
        match self {
            TokenCategory::Greater => ">",
            TokenCategory::GreaterOrEqual => ">=",
            TokenCategory::Less => "<",
            TokenCategory::LessOrEqual => "<=",
            TokenCategory::Equal => "==",
            TokenCategory::NotEqual => "!=",
            TokenCategory::Plus => "+",
            TokenCategory::Minus => "-",
            TokenCategory::Multiply => "*",
            TokenCategory::Divide => "/",
            TokenCategory::Negate => "!",
            TokenCategory::And => "&&",
            TokenCategory::Or => "||",
            TokenCategory::ParenOpen => "(",
            TokenCategory::ParenClose => ")",
            TokenCategory::BracketOpen => "[",
            TokenCategory::BracketClose => "]",
            TokenCategory::BraceOpen => "{",
            TokenCategory::BraceClose => "}",
            TokenCategory::For => "for",
            TokenCategory::While => "while",
            TokenCategory::If => "if",
            TokenCategory::Else => "else",
            TokenCategory::As => "as",
            TokenCategory::Fn => "fn",
            TokenCategory::True => "true",
            TokenCategory::False => "false",
            TokenCategory::Return => "return",
            TokenCategory::Switch => "switch",
            TokenCategory::Break => "break",
            TokenCategory::Bool => "bool",
            TokenCategory::String => "str",
            TokenCategory::I64 => "i64",
            TokenCategory::F64 => "f64",
            TokenCategory::Void => "void",
            TokenCategory::Assign => "=",
            TokenCategory::Colon => ":",
            TokenCategory::Semicolon => ";",
            TokenCategory::Comma => ",",
            TokenCategory::Reference => "&",
            TokenCategory::Arrow => "->",
            TokenCategory::STX => "STX",
            TokenCategory::ETX => "ETX",
            TokenCategory::Identifier => "identifier",
            TokenCategory::Comment => "comment",
            TokenCategory::StringValue => "string",
            TokenCategory::I64Value => "i64 value",
            TokenCategory::F64Value => "f64 value",
        }
    }
}

} // verus!
