//! The values that literal tokens carry.

use crate::decimal::{Decimal, DecimalView};
use vstd::prelude::*;
use vstd::string::StringExecFns;

verus! {

/// The value carried by a token or by a literal expression.
#[derive(Debug, PartialEq, Eq)]
pub enum Literal {
    String(String),
    Number(Decimal),
    Empty,
    Boolean(bool),
}

/// A `Literal`, with its text as a sequence of characters and its number as
/// sequences of digits.
pub enum LiteralView {
    String(Seq<char>),
    Number(DecimalView),
    Empty,
    Boolean(bool),
}

impl LiteralView {
    /// A number is well formed as a decimal; the other values always are.
    pub open spec fn wf(self) -> bool {
        self matches LiteralView::Number(d) ==> d.wf()
    }

    /// The canonical text of the value: a string as it is, a number in
    /// natural decimal form, a boolean as `true` or `false`, and the absent
    /// value as `null`.
    pub open spec fn text(self) -> Seq<char> {
        match self {
            LiteralView::String(s) => s,
            LiteralView::Number(d) => d.text(),
            LiteralView::Empty => "null"@,
            LiteralView::Boolean(b) => if b {
                "true"@
            } else {
                "false"@
            },
        }
    }
}

impl View for Literal {
    type V = LiteralView;

    open spec fn view(&self) -> LiteralView {
        match self {
            Literal::String(s) => LiteralView::String(s@),
            Literal::Number(d) => LiteralView::Number(d@),
            Literal::Empty => LiteralView::Empty,
            Literal::Boolean(b) => LiteralView::Boolean(*b),
        }
    }
}

impl Literal {
    /// The canonical text of the value.
    pub fn to_string(&self) -> (s: String)
        ensures
            self@.wf(),
            s@ == self@.text(),
    {
        match self {
            Literal::String(s) => s.clone(),
            Literal::Number(d) => d.to_string(),
            Literal::Empty => String::from_str("null"),
            Literal::Boolean(b) => if *b {
                String::from_str("true")
            } else {
                String::from_str("false")
            },
        }
    }
}

impl Clone for Literal {
    fn clone(&self) -> (l: Literal)
        ensures
            l@ == self@,
    {
        match self {
            Literal::String(s) => Literal::String(s.clone()),
            Literal::Number(d) => Literal::Number(d.clone()),
            Literal::Empty => Literal::Empty,
            Literal::Boolean(b) => Literal::Boolean(*b),
        }
    }
}

} // verus!
