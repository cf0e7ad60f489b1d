//! Tokens: classified, located units of source text.

use crate::literal::{Literal, LiteralView};
use crate::token_type::TokenType;
use vstd::prelude::*;
use vstd::string::StringExecFns;

verus! {

/// A token: its category, the exact source text it was read from, the value
/// it carries, and the line it ends on (counted from 1).
#[derive(Debug, PartialEq, Eq)]
pub struct Token {
    pub token_type: TokenType,
    pub lexeme: String,
    pub literal: Literal,
    pub line: usize,
}

/// A `Token`, with its texts as sequences of characters.
pub struct TokenView {
    pub token_type: TokenType,
    pub lexeme: Seq<char>,
    pub literal: LiteralView,
    pub line: nat,
}

impl LiteralView {
    /// How the value is shown in a token dump: the kind's name with the
    /// value in brackets, a string between double quotes, a whole number
    /// with `.0` after it.
    pub open spec fn dump(self) -> Seq<char> {
        match self {
            LiteralView::String(s) => "String(\""@ + s + "\")"@,
            LiteralView::Number(d) => if d.frac.len() > 0 {
                "Number("@ + d.text() + ")"@
            } else {
                "Number("@ + d.text() + ".0)"@
            },
            LiteralView::Empty => "Empty"@,
            LiteralView::Boolean(b) => if b {
                "Boolean(true)"@
            } else {
                "Boolean(false)"@
            },
        }
    }
}

impl TokenView {
    /// The token as one line of a token dump: the category's name, the
    /// lexeme and the literal, separated by a comma and a space.
    pub open spec fn dump(self) -> Seq<char> {
        self.token_type.name() + ", "@ + self.lexeme + ", "@ + self.literal.dump()
    }
}

impl View for Token {
    type V = TokenView;

    open spec fn view(&self) -> TokenView {
        TokenView {
            token_type: self.token_type,
            lexeme: self.lexeme@,
            literal: self.literal@,
            line: self.line as nat,
        }
    }
}

/// The views of a sequence of tokens, in order.
pub open spec fn token_views(tokens: Seq<Token>) -> Seq<TokenView> {
    tokens.map_values(|t: Token| t@)
}

impl Token {
    /// A token made of the four given parts.
    pub fn from(token_type: TokenType, lexeme: String, literal: Literal, line: usize) -> (t: Token)
        ensures
            t == (Token { token_type, lexeme, literal, line }),
    {
        Token { token_type, lexeme, literal, line }
    }

    /// The token as one line of a token dump.
    pub fn to_string(&self) -> (s: String)
        ensures
            s@ == self@.dump(),
    {
        let mut s = String::from_str(self.token_type.as_str());
        s.append(", ");
        s.append(self.lexeme.as_str());
        s.append(", ");
        match &self.literal {
            Literal::String(text) => {
                s.append("String(\"");
                s.append(text.as_str());
                s.append("\")");
            },
            Literal::Number(d) => {
                s.append("Number(");
                s.append(d.to_string().as_str());
                if d.is_whole() {
                    s.append(".0)");
                } else {
                    s.append(")");
                }
            },
            Literal::Empty => {
                s.append("Empty");
            },
            Literal::Boolean(b) => {
                if *b {
                    s.append("Boolean(true)");
                } else {
                    s.append("Boolean(false)");
                }
            },
        }
        s
    }
}

impl Clone for Token {
    fn clone(&self) -> (t: Token)
        ensures
            t@ == self@,
    {
        Token {
            token_type: self.token_type,
            lexeme: self.lexeme.clone(),
            literal: self.literal.clone(),
            line: self.line,
        }
    }
}

} // verus!
