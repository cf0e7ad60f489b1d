//! The parser: recursive descent over a token sequence, one function for
//! each rule of the grammar, with one token of lookahead.

use crate::error::Error;
use crate::expr::Expr;
use crate::grammar::{
    binary, expression, is_prefix_operator, lemma_expression_in_bounds, lemma_operand_in_bounds,
    primary, rest, type_at, unary, well_terminated, Parsed, Rule,
};
use crate::literal::Literal;
use crate::token::{token_views, Token, TokenView};
use crate::token_type::TokenType;
use crate::{syntax_error, DiagnosticView, Lox};
use vstd::prelude::*;
use vstd::string::StringExecFns;

verus! {

/// Whether parsing may resume at `pos` after a syntax error: there the
/// input ends, or a statement has just ended with a semicolon, or a keyword
/// starts a statement.
pub open spec fn is_boundary(ts: Seq<TokenView>, pos: nat) -> bool {
    ||| type_at(ts, pos) == TokenType::Eof
    ||| (pos > 0 && type_at(ts, (pos - 1) as nat) == TokenType::Semicolon)
    ||| type_at(ts, pos).starts_statement()
}

/// Whether `to` is where synchronization from `pos` ends: the first
/// boundary after `pos`, or `pos` itself at the end of input.
pub open spec fn resumes_at(ts: Seq<TokenView>, pos: nat, to: nat) -> bool {
    if type_at(ts, pos) == TokenType::Eof {
        to == pos
    } else {
        &&& pos < to
        &&& is_boundary(ts, to)
        &&& forall|j: nat| pos < j < to ==> !is_boundary(ts, j)
    }
}

/// A parser over one token sequence, with the position of the next token.
pub struct Parser {
    tokens: Vec<Token>,
    current: usize,
}

impl Parser {
    /// The token sequence ends with the end-of-input token, and the
    /// position is that of one of its tokens.
    pub closed spec fn wf(&self) -> bool {
        well_terminated(token_views(self.tokens@)) && self.current < self.tokens.len()
    }

    /// The token sequence.
    pub closed spec fn tokens(&self) -> Seq<TokenView> {
        token_views(self.tokens@)
    }

    /// The position of the next token.
    pub closed spec fn position(&self) -> nat {
        self.current as nat
    }

    /// Whether a call that started in the state `self`, with the reports
    /// `before`, and that was to do what `parsed` says, has done so: for a
    /// tree it returned the tree and stands after it, with nothing reported;
    /// for a failure it returned the parse error and stands at the token
    /// where the failure is, with that one syntax error reported.
    pub open spec fn yields(
        &self,
        parsed: Parsed,
        result: Result<Expr, Error>,
        after: &Parser,
        before: Seq<DiagnosticView>,
        reports: Seq<DiagnosticView>,
    ) -> bool {
        &&& after.wf()
        &&& after.tokens() == self.tokens()
        &&& match parsed {
            Parsed::Tree { expr, next } => {
                &&& result matches Ok(e) && e@ == expr
                &&& after.position() == next
                &&& reports == before
            },
            Parsed::Failure { at, message } => {
                &&& result matches Err(Error::Parser)
                &&& after.position() == at
                &&& reports == before.push(syntax_error(self.tokens()[at as int], message))
            },
        }
    }

    /// The category of the next token.
    spec fn next_type(&self) -> TokenType {
        self.tokens@[self.current as int].token_type
    }

    /// A parser at the start of `tokens`.
    pub fn new(tokens: Vec<Token>) -> (parser: Parser)
        requires
            well_terminated(token_views(tokens@)),
        ensures
            parser.wf(),
            parser.tokens() == token_views(tokens@),
            parser.position() == 0,
    {
        Parser { tokens, current: 0usize }
    }

    /// Parses one expression from the next token on. On a syntax error the
    /// error is reported to `lox` and no tree is returned.
    pub fn parse(&mut self, lox: &mut Lox) -> (result: Result<Expr, Error>)
        requires
            old(self).wf(),
        ensures
            old(self).yields(
                expression(old(self).tokens(), old(self).position()),
                result,
                final(self),
                old(lox)@,
                final(lox)@,
            ),
    {
        self.expression(lox)
    }

    /// `expression → equality`
    fn expression(&mut self, lox: &mut Lox) -> (result: Result<Expr, Error>)
        requires
            old(self).wf(),
        ensures
            final(self).tokens == old(self).tokens,
            old(self).yields(
                expression(old(self).tokens(), old(self).position()),
                result,
                final(self),
                old(lox)@,
                final(lox)@,
            ),
        decreases old(self).tokens.len() - old(self).current, 15nat,
    {
        self.equality(lox)
    }

    /// `equality → comparison ( ( "!=" | "==" ) comparison )*`
    fn equality(&mut self, lox: &mut Lox) -> (result: Result<Expr, Error>)
        requires
            old(self).wf(),
        ensures
            final(self).tokens == old(self).tokens,
            old(self).yields(
                binary(old(self).tokens(), old(self).position(), Rule::Equality),
                result,
                final(self),
                old(lox)@,
                final(lox)@,
            ),
        decreases old(self).tokens.len() - old(self).current, 14nat,
    {
        let ghost ts = self.tokens();
        let ghost rule = Rule::Equality;
        proof {
            lemma_operand_in_bounds(ts, self.position(), rule);
        }
        let mut expr: Expr = self.comparison(lox)?;
        loop
            invariant
                self.wf(),
                self.tokens == old(self).tokens,
                ts == self.tokens(),
                rule == Rule::Equality,
                lox@ == old(lox)@,
                self.current >= old(self).current,
                rest(ts, expr@, self.position(), rule) == binary(ts, old(self).position(), rule),
            ensures
                old(self).yields(
                    binary(ts, old(self).position(), rule),
                    Ok(expr),
                    self,
                    old(lox)@,
                    lox@,
                ),
            decreases self.tokens.len() - self.current,
        {
            let ghost pos = self.position();
            let types = vec![TokenType::BangEqual, TokenType::EqualEqual];
            assert(types@ == seq![TokenType::BangEqual, TokenType::EqualEqual]);
            assert(types@.contains(self.next_type()) == rule.has_operator(self.next_type())) by {
                if rule.has_operator(self.next_type()) {
                    assert(types@[0] == TokenType::BangEqual);
                    assert(types@[1] == TokenType::EqualEqual);
                }
            }
            if !self.trial(types) {
                break ;
            }
            let operator: Token = self.previous();
            proof {
                lemma_operand_in_bounds(ts, pos + 1, rule);
            }
            let right: Expr = self.comparison(lox)?;
            expr = Expr::Binary { left: Box::new(expr), operator, right: Box::new(right) };
        }
        Ok(expr)
    }

    /// `comparison → term ( ( ">" | ">=" | "<" | "<=" ) term )*`
    fn comparison(&mut self, lox: &mut Lox) -> (result: Result<Expr, Error>)
        requires
            old(self).wf(),
        ensures
            final(self).tokens == old(self).tokens,
            old(self).yields(
                binary(old(self).tokens(), old(self).position(), Rule::Comparison),
                result,
                final(self),
                old(lox)@,
                final(lox)@,
            ),
        decreases old(self).tokens.len() - old(self).current, 11nat,
    {
        let ghost ts = self.tokens();
        let ghost rule = Rule::Comparison;
        proof {
            lemma_operand_in_bounds(ts, self.position(), rule);
        }
        let mut expr: Expr = self.term(lox)?;
        loop
            invariant
                self.wf(),
                self.tokens == old(self).tokens,
                ts == self.tokens(),
                rule == Rule::Comparison,
                lox@ == old(lox)@,
                self.current >= old(self).current,
                rest(ts, expr@, self.position(), rule) == binary(ts, old(self).position(), rule),
            ensures
                old(self).yields(
                    binary(ts, old(self).position(), rule),
                    Ok(expr),
                    self,
                    old(lox)@,
                    lox@,
                ),
            decreases self.tokens.len() - self.current,
        {
            let ghost pos = self.position();
            let types = vec![
                TokenType::Greater,
                TokenType::GreaterEqual,
                TokenType::Less,
                TokenType::LessEqual,
            ];
            assert(types@ == seq![
                TokenType::Greater,
                TokenType::GreaterEqual,
                TokenType::Less,
                TokenType::LessEqual,
            ]);
            assert(types@.contains(self.next_type()) == rule.has_operator(self.next_type())) by {
                if rule.has_operator(self.next_type()) {
                    assert(types@[0] == TokenType::Greater);
                    assert(types@[1] == TokenType::GreaterEqual);
                    assert(types@[2] == TokenType::Less);
                    assert(types@[3] == TokenType::LessEqual);
                }
            }
            if !self.trial(types) {
                break ;
            }
            let operator: Token = self.previous();
            proof {
                lemma_operand_in_bounds(ts, pos + 1, rule);
            }
            let right: Expr = self.term(lox)?;
            expr = Expr::Binary { left: Box::new(expr), operator, right: Box::new(right) };
        }
        Ok(expr)
    }

    /// `term → factor ( ( "+" | "-" ) factor )*`
    fn term(&mut self, lox: &mut Lox) -> (result: Result<Expr, Error>)
        requires
            old(self).wf(),
        ensures
            final(self).tokens == old(self).tokens,
            old(self).yields(
                binary(old(self).tokens(), old(self).position(), Rule::Term),
                result,
                final(self),
                old(lox)@,
                final(lox)@,
            ),
        decreases old(self).tokens.len() - old(self).current, 8nat,
    {
        let ghost ts = self.tokens();
        let ghost rule = Rule::Term;
        proof {
            lemma_operand_in_bounds(ts, self.position(), rule);
        }
        let mut expr: Expr = self.factor(lox)?;
        loop
            invariant
                self.wf(),
                self.tokens == old(self).tokens,
                ts == self.tokens(),
                rule == Rule::Term,
                lox@ == old(lox)@,
                self.current >= old(self).current,
                rest(ts, expr@, self.position(), rule) == binary(ts, old(self).position(), rule),
            ensures
                old(self).yields(
                    binary(ts, old(self).position(), rule),
                    Ok(expr),
                    self,
                    old(lox)@,
                    lox@,
                ),
            decreases self.tokens.len() - self.current,
        {
            let ghost pos = self.position();
            let types = vec![TokenType::Plus, TokenType::Minus];
            assert(types@ == seq![TokenType::Plus, TokenType::Minus]);
            assert(types@.contains(self.next_type()) == rule.has_operator(self.next_type())) by {
                if rule.has_operator(self.next_type()) {
                    assert(types@[0] == TokenType::Plus);
                    assert(types@[1] == TokenType::Minus);
                }
            }
            if !self.trial(types) {
                break ;
            }
            let operator: Token = self.previous();
            proof {
                lemma_operand_in_bounds(ts, pos + 1, rule);
            }
            let right: Expr = self.factor(lox)?;
            expr = Expr::Binary { left: Box::new(expr), operator, right: Box::new(right) };
        }
        Ok(expr)
    }

    /// `factor → unary ( ( "/" | "*" ) unary )*`
    fn factor(&mut self, lox: &mut Lox) -> (result: Result<Expr, Error>)
        requires
            old(self).wf(),
        ensures
            final(self).tokens == old(self).tokens,
            old(self).yields(
                binary(old(self).tokens(), old(self).position(), Rule::Factor),
                result,
                final(self),
                old(lox)@,
                final(lox)@,
            ),
        decreases old(self).tokens.len() - old(self).current, 5nat,
    {
        let ghost ts = self.tokens();
        let ghost rule = Rule::Factor;
        proof {
            lemma_operand_in_bounds(ts, self.position(), rule);
        }
        let mut expr: Expr = self.unary(lox)?;
        loop
            invariant
                self.wf(),
                self.tokens == old(self).tokens,
                ts == self.tokens(),
                rule == Rule::Factor,
                lox@ == old(lox)@,
                self.current >= old(self).current,
                rest(ts, expr@, self.position(), rule) == binary(ts, old(self).position(), rule),
            ensures
                old(self).yields(
                    binary(ts, old(self).position(), rule),
                    Ok(expr),
                    self,
                    old(lox)@,
                    lox@,
                ),
            decreases self.tokens.len() - self.current,
        {
            let ghost pos = self.position();
            let types = vec![TokenType::Slash, TokenType::Star];
            assert(types@ == seq![TokenType::Slash, TokenType::Star]);
            assert(types@.contains(self.next_type()) == rule.has_operator(self.next_type())) by {
                if rule.has_operator(self.next_type()) {
                    assert(types@[0] == TokenType::Slash);
                    assert(types@[1] == TokenType::Star);
                }
            }
            if !self.trial(types) {
                break ;
            }
            let operator: Token = self.previous();
            proof {
                lemma_operand_in_bounds(ts, pos + 1, rule);
            }
            let right: Expr = self.unary(lox)?;
            expr = Expr::Binary { left: Box::new(expr), operator, right: Box::new(right) };
        }
        Ok(expr)
    }

    /// `unary → ( "!" | "-" ) unary | primary`
    fn unary(&mut self, lox: &mut Lox) -> (result: Result<Expr, Error>)
        requires
            old(self).wf(),
        ensures
            final(self).tokens == old(self).tokens,
            old(self).yields(
                unary(old(self).tokens(), old(self).position()),
                result,
                final(self),
                old(lox)@,
                final(lox)@,
            ),
        decreases old(self).tokens.len() - old(self).current, 1nat,
    {
        let ghost ts = self.tokens();
        let types = vec![TokenType::Bang, TokenType::Minus];
        assert(types@ == seq![TokenType::Bang, TokenType::Minus]);
        assert(types@.contains(self.next_type()) == is_prefix_operator(self.next_type())) by {
            if is_prefix_operator(self.next_type()) {
                assert(types@[0] == TokenType::Bang);
                assert(types@[1] == TokenType::Minus);
            }
        }
        if self.trial(types) {
            let operator: Token = self.previous();
            let right: Expr = self.unary(lox)?;
            return Ok(Expr::Unary { operator, right: Box::new(right) });
        }
        self.primary(lox)
    }

    /// `primary → NUMBER | STRING | "true" | "false" | "nil" | "(" expression ")"`
    fn primary(&mut self, lox: &mut Lox) -> (result: Result<Expr, Error>)
        requires
            old(self).wf(),
        ensures
            final(self).tokens == old(self).tokens,
            old(self).yields(
                primary(old(self).tokens(), old(self).position()),
                result,
                final(self),
                old(lox)@,
                final(lox)@,
            ),
        decreases old(self).tokens.len() - old(self).current, 0nat,
    {
        let ghost ts = self.tokens();
        let ghost pos = self.position();
        if self.check(TokenType::False) {
            self.advance();
            return Ok(Expr::Literal { literal: Literal::Boolean(false) });
        }
        if self.check(TokenType::True) {
            self.advance();
            return Ok(Expr::Literal { literal: Literal::Boolean(true) });
        }
        if self.check(TokenType::Nil) {
            self.advance();
            return Ok(Expr::Literal { literal: Literal::Empty });
        }
        if self.check(TokenType::Number) || self.check(TokenType::String) {
            self.advance();
            return Ok(Expr::Literal { literal: self.previous().literal });
        }
        if self.check(TokenType::LeftParen) {
            self.advance();
            proof {
                lemma_expression_in_bounds(ts, pos + 1);
            }
            let expr: Expr = self.expression(lox)?;
            self.consume(lox, TokenType::RightParen, String::from_str("Expect ')' after expression."))?;
            return Ok(Expr::Grouping { expression: Box::new(expr) });
        }
        lox.parse_error(self.peek(), String::from_str("Expected expression."));
        Err(Error::Parser)
    }

    /// Takes the next token if it is of category `token_type`; otherwise
    /// reports a syntax error at it, with `message`.
    fn consume(&mut self, lox: &mut Lox, token_type: TokenType, message: String) -> (result:
        Result<Token, Error>)
        requires
            old(self).wf(),
            token_type != TokenType::Eof,
        ensures
            final(self).wf(),
            final(self).tokens == old(self).tokens,
            if old(self).next_type() == token_type {
                &&& result matches Ok(t) && t@ == old(self).tokens()[old(self).current as int]
                &&& final(self).current == old(self).current + 1
                &&& final(lox)@ == old(lox)@
            } else {
                &&& result matches Err(Error::Parser)
                &&& final(self).current == old(self).current
                &&& final(lox)@ == old(lox)@.push(
                    syntax_error(old(self).tokens()[old(self).current as int], message@),
                )
            },
    {
        if self.check(token_type) {
            return Ok(self.advance());
        }
        Err(self.error(lox, self.peek(), message))
    }

    /// Takes the next token if its category is one of `token_types` and it
    /// is not the end of input.
    fn trial(&mut self, token_types: Vec<TokenType>) -> (taken: bool)
        requires
            old(self).wf(),
        ensures
            final(self).wf(),
            final(self).tokens == old(self).tokens,
            taken == (token_types@.contains(old(self).next_type()) && old(self).next_type()
                != TokenType::Eof),
            final(self).current == old(self).current + if taken {
                1int
            } else {
                0int
            },
    {
        let mut i: usize = 0;
        while i < token_types.len()
            invariant
                self.wf(),
                *self == *old(self),
                i <= token_types.len(),
                self.next_type() != TokenType::Eof ==> forall|j: int|
                    0 <= j < i ==> token_types@[j] != self.next_type(),
            decreases token_types.len() - i,
        {
            if self.check(token_types[i]) {
                self.advance();
                return true;
            }
            i += 1;
        }
        false
    }

    /// Whether the next token is of category `token_type` and is not the
    /// end of input.
    fn check(&self, token_type: TokenType) -> (r: bool)
        requires
            self.wf(),
        ensures
            r == (self.next_type() == token_type && token_type != TokenType::Eof),
    {
        if self.is_at_end() {
            return false;
        }
        self.tokens[self.current].token_type == token_type
    }

    /// Moves past the next token unless it is the end of input, and returns
    /// the token before the new position.
    fn advance(&mut self) -> (token: Token)
        requires
            old(self).wf(),
            old(self).current > 0 || old(self).next_type() != TokenType::Eof,
        ensures
            final(self).wf(),
            final(self).tokens == old(self).tokens,
            final(self).current == old(self).current + if old(self).next_type()
                == TokenType::Eof {
                0int
            } else {
                1int
            },
            token@ == final(self).tokens()[final(self).current - 1],
    {
        if !self.is_at_end() {
            self.current += 1
        }
        self.previous()
    }

    /// Whether the next token is the end of input.
    fn is_at_end(&self) -> (r: bool)
        requires
            self.wf(),
        ensures
            r == (self.next_type() == TokenType::Eof),
    {
        self.tokens[self.current].token_type == TokenType::Eof
    }

    /// The next token.
    fn peek(&self) -> (token: Token)
        requires
            self.wf(),
        ensures
            token@ == self.tokens()[self.current as int],
    {
        self.tokens[self.current].clone()
    }

    /// The token before the next.
    fn previous(&self) -> (token: Token)
        requires
            0 < self.current <= self.tokens.len(),
        ensures
            token@ == self.tokens()[self.current - 1],
    {
        self.tokens[self.current - 1].clone()
    }

    /// Reports a syntax error at `token` and gives the error to return.
    fn error(&mut self, lox: &mut Lox, token: Token, message: String) -> (e: Error)
        ensures
            *final(self) == *old(self),
            e matches Error::Parser,
            final(lox)@ == old(lox)@.push(syntax_error(token@, message@)),
    {
        lox.parse_error(token, message);
        Error::Parser
    }

    /// Discards tokens up to the next place where a statement may start:
    /// the end of input, the token after a semicolon, or a keyword that
    /// starts a statement. The token at the present position is always
    /// discarded, unless it is the end of input.
    pub fn synchronize(&mut self)
        requires
            old(self).wf(),
        ensures
            final(self).wf(),
            final(self).tokens() == old(self).tokens(),
            resumes_at(old(self).tokens(), old(self).position(), final(self).position()),
    {
        if self.is_at_end() {
            return ;
        }
        let ghost ts = self.tokens();
        let ghost from = self.position() + 1;
        assert(type_at(ts, self.position()) == self.next_type());
        let mut _tmp = self.advance();
        while !self.is_at_end()
            invariant
                self.wf(),
                self.tokens == old(self).tokens,
                ts == self.tokens(),
                from == old(self).position() + 1,
                type_at(ts, old(self).position()) != TokenType::Eof,
                from <= self.current,
                forall|j: nat| from <= j < self.current ==> !is_boundary(ts, j),
            decreases self.tokens.len() - self.current,
        {
            assert(type_at(ts, self.position()) == self.next_type());
            assert(type_at(ts, (self.position() - 1) as nat) == self.tokens@[self.current
                - 1].token_type);
            if self.tokens[self.current - 1].token_type == TokenType::Semicolon {
                return ;
            }
            match self.tokens[self.current].token_type {
                TokenType::Class
                | TokenType::Fun
                | TokenType::Var
                | TokenType::For
                | TokenType::If
                | TokenType::While
                | TokenType::Print
                | TokenType::Return => {
                    return ;
                },
                _ => {
                    _tmp = self.advance()
                },
            }
        }
    }
}

} // verus!
