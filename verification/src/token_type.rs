//! The lexical categories of tokens.

use vstd::prelude::*;

verus! {

/// The closed set of lexical categories.
#[derive(Debug, Clone, Copy, PartialEq, Eq, Structural)]
pub enum TokenType {
    // Single-character tokens.
    LeftParen,
    RightParen,
    LeftBrace,
    RightBrace,
    Comma,
    Dot,
    Minus,
    Plus,
    Semicolon,
    Slash,
    Star,
    // One or two character tokens.
    Bang,
    BangEqual,
    Equal,
    EqualEqual,
    Greater,
    GreaterEqual,
    Less,
    LessEqual,
    // Literals.
    Identifier,
    String,
    Number,
    // Keywords.
    And,
    Class,
    Else,
    False,
    Fun,
    For,
    If,
    Nil,
    Or,
    Print,
    Return,
    Super,
    This,
    True,
    Var,
    While,
    // End of input.
    Eof,
}

impl TokenType {
    /// The category's name, as written in this enumeration.
    pub open spec fn name(self) -> Seq<char> {
        match self {
            TokenType::LeftParen => "LeftParen"@,
            TokenType::RightParen => "RightParen"@,
            TokenType::LeftBrace => "LeftBrace"@,
            TokenType::RightBrace => "RightBrace"@,
            TokenType::Comma => "Comma"@,
            TokenType::Dot => "Dot"@,
            TokenType::Minus => "Minus"@,
            TokenType::Plus => "Plus"@,
            TokenType::Semicolon => "Semicolon"@,
            TokenType::Slash => "Slash"@,
            TokenType::Star => "Star"@,
            TokenType::Bang => "Bang"@,
            TokenType::BangEqual => "BangEqual"@,
            TokenType::Equal => "Equal"@,
            TokenType::EqualEqual => "EqualEqual"@,
            TokenType::Greater => "Greater"@,
            TokenType::GreaterEqual => "GreaterEqual"@,
            TokenType::Less => "Less"@,
            TokenType::LessEqual => "LessEqual"@,
            TokenType::Identifier => "Identifier"@,
            TokenType::String => "String"@,
            TokenType::Number => "Number"@,
            TokenType::And => "And"@,
            TokenType::Class => "Class"@,
            TokenType::Else => "Else"@,
            TokenType::False => "False"@,
            TokenType::Fun => "Fun"@,
            TokenType::For => "For"@,
            TokenType::If => "If"@,
            TokenType::Nil => "Nil"@,
            TokenType::Or => "Or"@,
            TokenType::Print => "Print"@,
            TokenType::Return => "Return"@,
            TokenType::Super => "Super"@,
            TokenType::This => "This"@,
            TokenType::True => "True"@,
            TokenType::Var => "Var"@,
            TokenType::While => "While"@,
            TokenType::Eof => "Eof"@,
        }
    }

    /// Whether a token of this category can start a statement: the keywords
    /// `class`, `fun`, `var`, `for`, `if`, `while`, `print` and `return`.
    pub open spec fn starts_statement(self) -> bool {
        self == TokenType::Class || self == TokenType::Fun || self == TokenType::Var || self
            == TokenType::For || self == TokenType::If || self == TokenType::While || self
            == TokenType::Print || self == TokenType::Return
    }

    /// The category's name, as written in this enumeration.
    pub fn as_str(&self) -> (s: &'static str)
        ensures
            s@ == self.name(),
    {
        match self {
            TokenType::LeftParen => "LeftParen",
            TokenType::RightParen => "RightParen",
            TokenType::LeftBrace => "LeftBrace",
            TokenType::RightBrace => "RightBrace",
            TokenType::Comma => "Comma",
            TokenType::Dot => "Dot",
            TokenType::Minus => "Minus",
            TokenType::Plus => "Plus",
            TokenType::Semicolon => "Semicolon",
            TokenType::Slash => "Slash",
            TokenType::Star => "Star",
            TokenType::Bang => "Bang",
            TokenType::BangEqual => "BangEqual",
            TokenType::Equal => "Equal",
            TokenType::EqualEqual => "EqualEqual",
            TokenType::Greater => "Greater",
            TokenType::GreaterEqual => "GreaterEqual",
            TokenType::Less => "Less",
            TokenType::LessEqual => "LessEqual",
            TokenType::Identifier => "Identifier",
            TokenType::String => "String",
            TokenType::Number => "Number",
            TokenType::And => "And",
            TokenType::Class => "Class",
            TokenType::Else => "Else",
            TokenType::False => "False",
            TokenType::Fun => "Fun",
            TokenType::For => "For",
            TokenType::If => "If",
            TokenType::Nil => "Nil",
            TokenType::Or => "Or",
            TokenType::Print => "Print",
            TokenType::Return => "Return",
            TokenType::Super => "Super",
            TokenType::This => "This",
            TokenType::True => "True",
            TokenType::Var => "Var",
            TokenType::While => "While",
            TokenType::Eof => "Eof",
        }
    }
}

} // verus!
