//! The syntax tree of expressions, and the visitor through which analyses
//! walk it.

use crate::error::Error;
use crate::literal::{Literal, LiteralView};
use crate::token::{Token, TokenView};
use vstd::prelude::*;

verus! {

/// An expression. Every node owns its operands: the tree shares nothing and
/// has no cycle.
#[derive(Debug)]
pub enum Expr {
    Binary { left: Box<Expr>, operator: Token, right: Box<Expr> },
    Grouping { expression: Box<Expr> },
    Literal { literal: Literal },
    Unary { operator: Token, right: Box<Expr> },
}

/// An `Expr`, with its tokens and literals as their views.
pub enum ExprView {
    Binary { left: Box<ExprView>, operator: TokenView, right: Box<ExprView> },
    Grouping { expression: Box<ExprView> },
    Literal { literal: LiteralView },
    Unary { operator: TokenView, right: Box<ExprView> },
}

/// The view of `e`: the same tree over the views of its tokens and literals.
pub open spec fn view_of(e: Expr) -> ExprView
    decreases e,
{
    match e {
        Expr::Binary { left, operator, right } => ExprView::Binary {
            left: Box::new(view_of(*left)),
            operator: operator@,
            right: Box::new(view_of(*right)),
        },
        Expr::Grouping { expression } => ExprView::Grouping {
            expression: Box::new(view_of(*expression)),
        },
        Expr::Literal { literal } => ExprView::Literal { literal: literal@ },
        Expr::Unary { operator, right } => ExprView::Unary {
            operator: operator@,
            right: Box::new(view_of(*right)),
        },
    }
}

impl View for Expr {
    type V = ExprView;

    open spec fn view(&self) -> ExprView {
        view_of(*self)
    }
}

/// An analysis of expressions: one handler for each kind of node, all with
/// the same kind of result. For each handler a predicate says which results
/// and which states of the visitor a call may end with; a visitor that
/// states none promises nothing of its handlers.
pub trait Visitor<R>: Sized {
    /// Whether `visit_binary_expr` may return `result` and leave `after`.
    open spec fn binary(
        &self,
        left: &Expr,
        operator: &Token,
        right: &Expr,
        result: Result<R, Error>,
        after: &Self,
    ) -> bool {
        true
    }

    /// Whether `visit_grouping_expr` may return `result` and leave `after`.
    open spec fn grouping(&self, expression: &Expr, result: Result<R, Error>, after: &Self) -> bool {
        true
    }

    /// Whether `visit_literal_expr` may return `result` and leave `after`.
    open spec fn literal(&self, literal: &Literal, result: Result<R, Error>, after: &Self) -> bool {
        true
    }

    /// Whether `visit_unary_expr` may return `result` and leave `after`.
    open spec fn unary(
        &self,
        operator: &Token,
        right: &Expr,
        result: Result<R, Error>,
        after: &Self,
    ) -> bool {
        true
    }

    /// Handles a binary node, given its parts.
    fn visit_binary_expr(&mut self, left: &Expr, operator: &Token, right: &Expr) -> (result:
        Result<R, Error>)
        ensures
            old(self).binary(left, operator, right, result, final(self)),
    ;

    /// Handles a grouping, given the expression between its parentheses.
    fn visit_grouping_expr(&mut self, expression: &Expr) -> (result: Result<R, Error>)
        ensures
            old(self).grouping(expression, result, final(self)),
    ;

    /// Handles a literal, given its value.
    fn visit_literal_expr(&mut self, literal: &Literal) -> (result: Result<R, Error>)
        ensures
            old(self).literal(literal, result, final(self)),
    ;

    /// Handles a unary node, given its parts.
    fn visit_unary_expr(&mut self, operator: &Token, right: &Expr) -> (result: Result<R, Error>)
        ensures
            old(self).unary(operator, right, result, final(self)),
    ;
}

impl Expr {
    /// Hands the node to the handler of `visitor` for its kind, with the
    /// node's parts, and returns what the handler returns.
    pub fn accept<R, V: Visitor<R>>(&self, visitor: &mut V) -> (result: Result<R, Error>)
        ensures
            match self {
                Expr::Binary { left, operator, right } => old(visitor).binary(
                    left,
                    operator,
                    right,
                    result,
                    final(visitor),
                ),
                Expr::Grouping { expression } => old(visitor).grouping(
                    expression,
                    result,
                    final(visitor),
                ),
                Expr::Literal { literal } => old(visitor).literal(literal, result, final(visitor)),
                Expr::Unary { operator, right } => old(visitor).unary(
                    operator,
                    right,
                    result,
                    final(visitor),
                ),
            },
    {
        match self {
            Expr::Binary { left, operator, right } => visitor.visit_binary_expr(
                left,
                operator,
                right,
            ),
            Expr::Grouping { expression } => visitor.visit_grouping_expr(expression),
            Expr::Literal { literal } => visitor.visit_literal_expr(literal),
            Expr::Unary { operator, right } => visitor.visit_unary_expr(operator, right),
        }
    }
}

} // verus!
