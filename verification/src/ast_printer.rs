//! The printer: a visitor that writes a tree in prefix form, every node
//! that has operands between parentheses.

use crate::error::Error;
use crate::expr::{Expr, ExprView, Visitor};
use crate::literal::Literal;
use crate::token::Token;
use vstd::prelude::*;
use vstd::string::StringExecFns;

verus! {

/// Each of `parts` with a space before it, one after the other.
pub open spec fn spaced(parts: Seq<Seq<char>>) -> Seq<char>
    decreases parts.len(),
{
    if parts.len() == 0 {
        Seq::empty()
    } else {
        spaced(parts.drop_last()) + seq![' '] + parts.last()
    }
}

/// `name` and `parts`, separated by spaces, between parentheses.
pub open spec fn parenthesized(name: Seq<char>, parts: Seq<Seq<char>>) -> Seq<char> {
    seq!['('] + name + spaced(parts) + seq![')']
}

/// The printed form of a tree: a literal as its canonical text, a grouping
/// as `(group inner)`, and an operation as `(operator operand ...)`.
pub open spec fn printed(e: ExprView) -> Seq<char>
    decreases e,
{
    match e {
        ExprView::Binary { left, operator, right } => parenthesized(
            operator.lexeme,
            seq![printed(*left), printed(*right)],
        ),
        ExprView::Grouping { expression } => parenthesized("group"@, seq![printed(*expression)]),
        ExprView::Literal { literal } => literal.text(),
        ExprView::Unary { operator, right } => parenthesized(
            operator.lexeme,
            seq![printed(*right)],
        ),
    }
}

/// Number of nodes of a tree.
pub open spec fn size(e: ExprView) -> nat
    decreases e,
{
    match e {
        ExprView::Binary { left, operator, right } => 1 + size(*left) + size(*right),
        ExprView::Grouping { expression } => 1 + size(*expression),
        ExprView::Literal { literal } => 1,
        ExprView::Unary { operator, right } => 1 + size(*right),
    }
}

/// Number of nodes of all of `trees`.
pub open spec fn total_size(trees: Seq<&Expr>) -> nat
    decreases trees.len(),
{
    if trees.len() == 0 {
        0
    } else {
        total_size(trees.drop_last()) + size(trees.last()@)
    }
}

/// The printed forms of `trees`, in order.
pub open spec fn all_printed(trees: Seq<&Expr>) -> Seq<Seq<char>> {
    trees.map_values(|e: &Expr| printed(e@))
}

/// The visitor that prints a tree.
pub struct AstPrinter;

impl AstPrinter {
    /// The printed form of `expr`.
    pub fn print(&mut self, expr: Expr) -> (result: Result<String, Error>)
        ensures
            result matches Ok(s) && s@ == printed(expr@),
    {
        expr.accept(self)
    }

    /// The printed form of the tree under `expr`.
    fn render(&mut self, expr: &Expr) -> (result: Result<String, Error>)
        ensures
            result matches Ok(s) && s@ == printed(expr@),
        decreases size(expr@), 1nat,
    {
        match expr {
            Expr::Binary { left, operator, right } => {
                let operands: Vec<&Expr> = vec![left, right];
                proof {
                    lemma_pair(operands@, left, right);
                }
                self.parenthesize(operator.lexeme.clone(), operands)
            },
            Expr::Grouping { expression } => {
                let operands: Vec<&Expr> = vec![expression];
                proof {
                    lemma_single(operands@, expression);
                }
                self.parenthesize(String::from_str("group"), operands)
            },
            Expr::Literal { literal } => Ok(literal.to_string()),
            Expr::Unary { operator, right } => {
                let operands: Vec<&Expr> = vec![right];
                proof {
                    lemma_single(operands@, right);
                }
                self.parenthesize(operator.lexeme.clone(), operands)
            },
        }
    }

    /// `name` and the printed forms of `expressions`, separated by spaces,
    /// between parentheses.
    fn parenthesize(&mut self, name: String, expressions: Vec<&Expr>) -> (result: Result<
        String,
        Error,
    >)
        ensures
            result matches Ok(s) && s@ == parenthesized(name@, all_printed(expressions@)),
        decreases total_size(expressions@) + 1, 0nat,
    {
        let mut result = String::new();
        result.push('(');
        result.append(name.as_str());
        let mut i: usize = 0;
        while i < expressions.len()
            invariant
                i <= expressions.len(),
                result@ == seq!['('] + name@ + spaced(all_printed(expressions@.take(i as int))),
            decreases expressions.len() - i,
        {
            proof {
                lemma_total_size_bounds(expressions@, i as int);
            }
            let part = match self.render(expressions[i]) {
                Ok(part) => part,
                Err(e) => {
                    return Err(e);
                },
            };
            result.push(' ');
            result.append(part.as_str());
            proof {
                let grown = all_printed(expressions@.take(i + 1));
                assert(grown.drop_last() =~= all_printed(expressions@.take(i as int)));
                assert(grown.last() == part@);
                assert(result@ =~= seq!['('] + name@ + spaced(grown));
            }
            i += 1;
        }
        assert(expressions@.take(i as int) =~= expressions@);
        result.push(')');
        assert(result@ =~= parenthesized(name@, all_printed(expressions@)));
        Ok(result)
    }
}

/// The sizes and printed forms of a sequence of one tree.
pub proof fn lemma_single(trees: Seq<&Expr>, only: &Expr)
    requires
        trees =~= seq![only],
    ensures
        total_size(trees) == size(only@),
        all_printed(trees) == seq![printed(only@)],
{
    reveal_with_fuel(total_size, 2);
    assert(all_printed(trees) =~= seq![printed(only@)]);
}

/// The sizes and printed forms of a sequence of two trees.
pub proof fn lemma_pair(trees: Seq<&Expr>, first: &Expr, second: &Expr)
    requires
        trees =~= seq![first, second],
    ensures
        total_size(trees) == size(first@) + size(second@),
        all_printed(trees) == seq![printed(first@), printed(second@)],
{
    lemma_single(trees.drop_last(), first);
    assert(all_printed(trees) =~= seq![printed(first@), printed(second@)]);
}

/// No tree among `trees` has more nodes than all of them together.
pub proof fn lemma_total_size_bounds(trees: Seq<&Expr>, i: int)
    requires
        0 <= i < trees.len(),
    ensures
        size(trees[i]@) <= total_size(trees),
    decreases trees.len(),
{
    if i < trees.len() - 1 {
        lemma_total_size_bounds(trees.drop_last(), i);
    }
}

impl Visitor<String> for AstPrinter {
    open spec fn binary(
        &self,
        left: &Expr,
        operator: &Token,
        right: &Expr,
        result: Result<String, Error>,
        after: &Self,
    ) -> bool {
        result matches Ok(s) && s@ == parenthesized(
            operator@.lexeme,
            seq![printed(left@), printed(right@)],
        )
    }

    open spec fn grouping(
        &self,
        expression: &Expr,
        result: Result<String, Error>,
        after: &Self,
    ) -> bool {
        result matches Ok(s) && s@ == parenthesized("group"@, seq![printed(expression@)])
    }

    open spec fn literal(
        &self,
        literal: &Literal,
        result: Result<String, Error>,
        after: &Self,
    ) -> bool {
        result matches Ok(s) && s@ == literal@.text()
    }

    open spec fn unary(
        &self,
        operator: &Token,
        right: &Expr,
        result: Result<String, Error>,
        after: &Self,
    ) -> bool {
        result matches Ok(s) && s@ == parenthesized(operator@.lexeme, seq![printed(right@)])
    }

    fn visit_binary_expr(&mut self, left: &Expr, operator: &Token, right: &Expr) -> (result:
        Result<String, Error>) {
        let operands: Vec<&Expr> = vec![left, right];
        proof {
            lemma_pair(operands@, left, right);
        }
        self.parenthesize(operator.lexeme.clone(), operands)
    }

    fn visit_grouping_expr(&mut self, expression: &Expr) -> (result: Result<String, Error>) {
        let operands: Vec<&Expr> = vec![expression];
        proof {
            lemma_single(operands@, expression);
        }
        self.parenthesize(String::from_str("group"), operands)
    }

    fn visit_literal_expr(&mut self, literal: &Literal) -> (result: Result<String, Error>) {
        Ok(literal.to_string())
    }

    fn visit_unary_expr(&mut self, operator: &Token, right: &Expr) -> (result: Result<
        String,
        Error,
    >) {
        let operands: Vec<&Expr> = vec![right];
        proof {
            lemma_single(operands@, right);
        }
        self.parenthesize(operator.lexeme.clone(), operands)
    }
}

} // verus!
