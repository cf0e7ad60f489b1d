//! The grammar of expressions, from the loosest rule to the tightest:
//!
//! ```text
//! expression → equality
//! equality   → comparison ( ( "!=" | "==" ) comparison )*
//! comparison → term ( ( ">" | ">=" | "<" | "<=" ) term )*
//! term       → factor ( ( "+" | "-" ) factor )*
//! factor     → unary ( ( "/" | "*" ) unary )*
//! unary      → ( "!" | "-" ) unary | primary
//! primary    → NUMBER | STRING | "true" | "false" | "nil" | "(" expression ")"
//! ```
//!
//! The functions here say what parsing a token sequence from a position
//! gives: a tree and the position after it, or the place and message of the
//! first syntax error.

use crate::expr::ExprView;
use crate::literal::LiteralView;
use crate::token::TokenView;
use crate::token_type::TokenType;
use vstd::prelude::*;

verus! {

/// The message for a token that starts no expression.
pub open spec fn expected_expression() -> Seq<char> {
    "Expected expression."@
}

/// The message for a grouping without its closing parenthesis.
pub open spec fn expected_right_paren() -> Seq<char> {
    "Expect ')' after expression."@
}

/// A token sequence that a parser can read: it is not empty and its last
/// token is the end-of-input token.
pub open spec fn well_terminated(ts: Seq<TokenView>) -> bool {
    ts.len() > 0 && ts.last().token_type == TokenType::Eof
}

/// The category of the token at `pos`; past the end, the end of input.
pub open spec fn type_at(ts: Seq<TokenView>, pos: nat) -> TokenType {
    if pos < ts.len() {
        ts[pos as int].token_type
    } else {
        TokenType::Eof
    }
}

/// The four rules for binary operators.
pub enum Rule {
    Equality,
    Comparison,
    Term,
    Factor,
}

impl Rule {
    /// Whether a token of category `t` is an operator of this rule.
    pub open spec fn has_operator(self, t: TokenType) -> bool {
        match self {
            Rule::Equality => t == TokenType::BangEqual || t == TokenType::EqualEqual,
            Rule::Comparison => t == TokenType::Greater || t == TokenType::GreaterEqual || t
                == TokenType::Less || t == TokenType::LessEqual,
            Rule::Term => t == TokenType::Plus || t == TokenType::Minus,
            Rule::Factor => t == TokenType::Slash || t == TokenType::Star,
        }
    }

    /// How loosely the rule binds: 1 for the tightest, 4 for the loosest.
    pub open spec fn rank(self) -> nat {
        match self {
            Rule::Equality => 4,
            Rule::Comparison => 3,
            Rule::Term => 2,
            Rule::Factor => 1,
        }
    }
}

/// Whether a token of category `t` is a prefix operator.
pub open spec fn is_prefix_operator(t: TokenType) -> bool {
    t == TokenType::Bang || t == TokenType::Minus
}

/// The outcome of parsing from a position: a tree and the position of the
/// first token after it, or the position of the token at which the first
/// syntax error is, with its message.
pub enum Parsed {
    Tree { expr: ExprView, next: nat },
    Failure { at: nat, message: Seq<char> },
}

/// `primary`: a literal, or an expression between parentheses.
pub open spec fn primary(ts: Seq<TokenView>, pos: nat) -> Parsed
    decreases ts.len() - pos, 0nat,
{
    let t = type_at(ts, pos);
    if t == TokenType::False {
        Parsed::Tree {
            expr: ExprView::Literal { literal: LiteralView::Boolean(false) },
            next: pos + 1,
        }
    } else if t == TokenType::True {
        Parsed::Tree {
            expr: ExprView::Literal { literal: LiteralView::Boolean(true) },
            next: pos + 1,
        }
    } else if t == TokenType::Nil {
        Parsed::Tree { expr: ExprView::Literal { literal: LiteralView::Empty }, next: pos + 1 }
    } else if t == TokenType::Number || t == TokenType::String {
        Parsed::Tree {
            expr: ExprView::Literal { literal: ts[pos as int].literal },
            next: pos + 1,
        }
    } else if t == TokenType::LeftParen {
        match expression(ts, pos + 1) {
            Parsed::Tree { expr, next } => if type_at(ts, next) == TokenType::RightParen {
                Parsed::Tree { expr: ExprView::Grouping { expression: Box::new(expr) }, next: next + 1 }
            } else {
                Parsed::Failure { at: next, message: expected_right_paren() }
            },
            failure => failure,
        }
    } else {
        Parsed::Failure { at: pos, message: expected_expression() }
    }
}

/// `unary`: any number of prefix operators before a primary.
pub open spec fn unary(ts: Seq<TokenView>, pos: nat) -> Parsed
    decreases ts.len() - pos, 1nat,
{
    if is_prefix_operator(type_at(ts, pos)) {
        match unary(ts, pos + 1) {
            Parsed::Tree { expr, next } => Parsed::Tree {
                expr: ExprView::Unary { operator: ts[pos as int], right: Box::new(expr) },
                next,
            },
            failure => failure,
        }
    } else {
        primary(ts, pos)
    }
}

/// One operand of `rule`: an expression of the next tighter rule.
pub open spec fn operand(ts: Seq<TokenView>, pos: nat, rule: Rule) -> Parsed
    decreases ts.len() - pos, 3 * rule.rank() + 1,
{
    match rule {
        Rule::Equality => binary(ts, pos, Rule::Comparison),
        Rule::Comparison => binary(ts, pos, Rule::Term),
        Rule::Term => binary(ts, pos, Rule::Factor),
        Rule::Factor => unary(ts, pos),
    }
}

/// What follows the operand `left` of `rule`, which ends before `pos`:
/// while an operator of the rule comes next, it and one more operand are
/// put under a new node with all that came before on its left.
pub open spec fn rest(ts: Seq<TokenView>, left: ExprView, pos: nat, rule: Rule) -> Parsed
    decreases ts.len() - pos, 3 * rule.rank(),
{
    if pos < ts.len() && rule.has_operator(type_at(ts, pos)) {
        match operand(ts, pos + 1, rule) {
            Parsed::Tree { expr, next } => if pos < next <= ts.len() {
                rest(
                    ts,
                    ExprView::Binary {
                        left: Box::new(left),
                        operator: ts[pos as int],
                        right: Box::new(expr),
                    },
                    next,
                    rule,
                )
            } else {
                Parsed::Failure { at: pos, message: expected_expression() }
            },
            failure => failure,
        }
    } else {
        Parsed::Tree { expr: left, next: pos }
    }
}

/// A chain of operands of `rule`, joined from the left by its operators.
pub open spec fn binary(ts: Seq<TokenView>, pos: nat, rule: Rule) -> Parsed
    decreases ts.len() - pos, 3 * rule.rank() + 2,
{
    match operand(ts, pos, rule) {
        Parsed::Tree { expr, next } => if pos <= next <= ts.len() {
            rest(ts, expr, next, rule)
        } else {
            Parsed::Failure { at: pos, message: expected_expression() }
        },
        failure => failure,
    }
}

/// `expression`: the loosest rule.
pub open spec fn expression(ts: Seq<TokenView>, pos: nat) -> Parsed
    decreases ts.len() - pos, 15nat,
{
    if pos < ts.len() {
        binary(ts, pos, Rule::Equality)
    } else {
        Parsed::Failure { at: pos, message: expected_expression() }
    }
}

/// Parsing moves forward and stays inside a well-terminated sequence: a
/// tree ends after the position it starts at and not after the last token;
/// a failure is at a token of the sequence, not before the start.
pub open spec fn in_bounds(ts: Seq<TokenView>, pos: nat, parsed: Parsed) -> bool {
    match parsed {
        Parsed::Tree { expr, next } => pos < next < ts.len(),
        Parsed::Failure { at, message } => pos <= at < ts.len(),
    }
}

/// `primary` stays in bounds.
pub proof fn lemma_primary_in_bounds(ts: Seq<TokenView>, pos: nat)
    requires
        well_terminated(ts),
        pos < ts.len(),
    ensures
        in_bounds(ts, pos, primary(ts, pos)),
    decreases ts.len() - pos, 0nat,
{
    if type_at(ts, pos) == TokenType::LeftParen {
        lemma_expression_in_bounds(ts, pos + 1);
    }
}

/// `unary` stays in bounds.
pub proof fn lemma_unary_in_bounds(ts: Seq<TokenView>, pos: nat)
    requires
        well_terminated(ts),
        pos < ts.len(),
    ensures
        in_bounds(ts, pos, unary(ts, pos)),
    decreases ts.len() - pos, 1nat,
{
    if is_prefix_operator(type_at(ts, pos)) {
        lemma_unary_in_bounds(ts, pos + 1);
    } else {
        lemma_primary_in_bounds(ts, pos);
    }
}

/// `operand` stays in bounds.
pub proof fn lemma_operand_in_bounds(ts: Seq<TokenView>, pos: nat, rule: Rule)
    requires
        well_terminated(ts),
        pos < ts.len(),
    ensures
        in_bounds(ts, pos, operand(ts, pos, rule)),
    decreases ts.len() - pos, 3 * rule.rank() + 1,
{
    match rule {
        Rule::Equality => lemma_binary_in_bounds(ts, pos, Rule::Comparison),
        Rule::Comparison => lemma_binary_in_bounds(ts, pos, Rule::Term),
        Rule::Term => lemma_binary_in_bounds(ts, pos, Rule::Factor),
        Rule::Factor => lemma_unary_in_bounds(ts, pos),
    }
}

/// `rest` does not move back and stays in bounds.
pub proof fn lemma_rest_in_bounds(ts: Seq<TokenView>, left: ExprView, pos: nat, rule: Rule)
    requires
        well_terminated(ts),
        pos < ts.len(),
    ensures
        match rest(ts, left, pos, rule) {
            Parsed::Tree { expr, next } => pos <= next < ts.len(),
            Parsed::Failure { at, message } => pos <= at < ts.len(),
        },
    decreases ts.len() - pos, 3 * rule.rank(),
{
    if rule.has_operator(type_at(ts, pos)) {
        lemma_operand_in_bounds(ts, pos + 1, rule);
        match operand(ts, pos + 1, rule) {
            Parsed::Tree { expr, next } => {
                lemma_rest_in_bounds(
                    ts,
                    ExprView::Binary {
                        left: Box::new(left),
                        operator: ts[pos as int],
                        right: Box::new(expr),
                    },
                    next,
                    rule,
                );
            },
            _ => {},
        }
    }
}

/// `binary` stays in bounds.
pub proof fn lemma_binary_in_bounds(ts: Seq<TokenView>, pos: nat, rule: Rule)
    requires
        well_terminated(ts),
        pos < ts.len(),
    ensures
        in_bounds(ts, pos, binary(ts, pos, rule)),
    decreases ts.len() - pos, 3 * rule.rank() + 2,
{
    lemma_operand_in_bounds(ts, pos, rule);
    match operand(ts, pos, rule) {
        Parsed::Tree { expr, next } => {
            lemma_rest_in_bounds(ts, expr, next, rule);
        },
        _ => {},
    }
}

/// `expression` stays in bounds.
pub proof fn lemma_expression_in_bounds(ts: Seq<TokenView>, pos: nat)
    requires
        well_terminated(ts),
        pos < ts.len(),
    ensures
        in_bounds(ts, pos, expression(ts, pos)),
    decreases ts.len() - pos, 15nat,
{
    lemma_binary_in_bounds(ts, pos, Rule::Equality);
}

/// Whether a token of category `t` is an operator of any rule for binary
/// operators.
pub open spec fn is_binary_operator(t: TokenType) -> bool {
    Rule::Equality.has_operator(t) || Rule::Comparison.has_operator(t) || Rule::Term.has_operator(
        t,
    ) || Rule::Factor.has_operator(t)
}

/// An operand of `rule` that no operator of the rule follows is all of the
/// chain.
pub proof fn lemma_binary_alone(ts: Seq<TokenView>, pos: nat, rule: Rule)
    requires
        operand(ts, pos, rule) is Tree,
        pos <= operand(ts, pos, rule)->next <= ts.len(),
        !rule.has_operator(type_at(ts, operand(ts, pos, rule)->next)),
    ensures
        binary(ts, pos, rule) == operand(ts, pos, rule),
{
}

/// A primary expression that neither starts with a prefix operator nor is
/// followed by a binary operator is the whole expression.
pub proof fn lemma_expression_alone(ts: Seq<TokenView>, pos: nat)
    requires
        pos < ts.len(),
        !is_prefix_operator(type_at(ts, pos)),
        primary(ts, pos) is Tree,
        pos <= primary(ts, pos)->next <= ts.len(),
        !is_binary_operator(type_at(ts, primary(ts, pos)->next)),
    ensures
        expression(ts, pos) == primary(ts, pos),
{
    assert(unary(ts, pos) == primary(ts, pos));
    assert(operand(ts, pos, Rule::Factor) == unary(ts, pos));
    lemma_binary_alone(ts, pos, Rule::Factor);
    assert(operand(ts, pos, Rule::Term) == binary(ts, pos, Rule::Factor));
    lemma_binary_alone(ts, pos, Rule::Term);
    assert(operand(ts, pos, Rule::Comparison) == binary(ts, pos, Rule::Term));
    lemma_binary_alone(ts, pos, Rule::Comparison);
    assert(operand(ts, pos, Rule::Equality) == binary(ts, pos, Rule::Comparison));
    lemma_binary_alone(ts, pos, Rule::Equality);
}

/// How loosely an operator binds: the rank of the rule it belongs to, from
/// 1 for `/` and `*` to 4 for `!=` and `==`; 0 for a token that is no binary
/// operator.
pub open spec fn binding(t: TokenType) -> nat {
    if Rule::Equality.has_operator(t) {
        4
    } else if Rule::Comparison.has_operator(t) {
        3
    } else if Rule::Term.has_operator(t) {
        2
    } else if Rule::Factor.has_operator(t) {
        1
    } else {
        0
    }
}

/// The literal that a token stands for as a primary expression, if it
/// stands for one.
pub open spec fn literal_of(token: TokenView) -> Option<LiteralView> {
    if token.token_type == TokenType::False {
        Some(LiteralView::Boolean(false))
    } else if token.token_type == TokenType::True {
        Some(LiteralView::Boolean(true))
    } else if token.token_type == TokenType::Nil {
        Some(LiteralView::Empty)
    } else if token.token_type == TokenType::Number || token.token_type == TokenType::String {
        Some(token.literal)
    } else {
        None
    }
}

/// Whether the grammar derives the tree `e` from a rule of rank `k` or
/// tighter (0 stands for `unary` and `primary`): every binary node has an
/// operator of a rule of rank at most `k`, a left operand of that rule, and
/// a right operand of the next tighter rule; a unary node has a prefix
/// operator and an operand that is no binary node; a grouping holds any
/// expression.
pub open spec fn conforms(e: ExprView, k: nat) -> bool
    decreases e,
{
    match e {
        ExprView::Binary { left, operator, right } => {
            let r = binding(operator.token_type);
            &&& 1 <= r <= k
            &&& conforms(*left, r)
            &&& conforms(*right, (r - 1) as nat)
        },
        ExprView::Grouping { expression } => conforms(*expression, 4),
        ExprView::Literal { literal } => true,
        ExprView::Unary { operator, right } => {
            &&& is_prefix_operator(operator.token_type)
            &&& conforms(*right, 0)
        },
    }
}

/// Whether the tree `e` is a reading of the tokens from `from` up to, and
/// without, `to`: a literal is one token that stands for it; a grouping is
/// a parenthesis pair around a reading of what is between them; a unary
/// node is its operator before a reading of the rest; a binary node is
/// its operator between readings of what is before and after it.
pub open spec fn reads(e: ExprView, ts: Seq<TokenView>, from: int, to: int) -> bool
    decreases e,
{
    &&& 0 <= from < to <= ts.len()
    &&& match e {
        ExprView::Binary { left, operator, right } => exists|mid: int|
            {
                &&& from < mid < to
                &&& #[trigger] ts[mid] == operator
                &&& reads(*left, ts, from, mid)
                &&& reads(*right, ts, mid + 1, to)
            },
        ExprView::Grouping { expression } => {
            &&& ts[from].token_type == TokenType::LeftParen
            &&& ts[to - 1].token_type == TokenType::RightParen
            &&& reads(*expression, ts, from + 1, to - 1)
        },
        ExprView::Literal { literal } => to == from + 1 && literal_of(ts[from]) == Some(literal),
        ExprView::Unary { operator, right } => {
            &&& ts[from] == operator
            &&& reads(*right, ts, from + 1, to)
        },
    }
}

/// Whether `parsed`, if it is a tree, is a reading of the tokens from `pos`
/// to where it ends that the grammar derives from a rule of rank `k` or
/// tighter.
pub open spec fn sound(ts: Seq<TokenView>, pos: nat, parsed: Parsed, k: nat) -> bool {
    parsed matches Parsed::Tree { expr, next } ==> reads(expr, ts, pos as int, next as int)
        && conforms(expr, k)
}

/// What a tighter rule derives, a looser rule derives too.
pub proof fn lemma_conforms_looser(e: ExprView, k: nat, looser: nat)
    requires
        conforms(e, k),
        k <= looser,
    ensures
        conforms(e, looser),
{
}

/// What `primary` parses is a reading of its tokens that `primary` derives.
pub proof fn lemma_primary_sound(ts: Seq<TokenView>, pos: nat)
    ensures
        sound(ts, pos, primary(ts, pos), 0),
    decreases ts.len() - pos, 0nat,
{
    if type_at(ts, pos) == TokenType::LeftParen {
        lemma_expression_sound(ts, pos + 1);
    }
}

/// What `unary` parses is a reading of its tokens that `unary` derives.
pub proof fn lemma_unary_sound(ts: Seq<TokenView>, pos: nat)
    ensures
        sound(ts, pos, unary(ts, pos), 0),
    decreases ts.len() - pos, 1nat,
{
    if is_prefix_operator(type_at(ts, pos)) {
        lemma_unary_sound(ts, pos + 1);
    } else {
        lemma_primary_sound(ts, pos);
    }
}

/// What `operand` parses is a reading of its tokens that the next tighter
/// rule derives.
pub proof fn lemma_operand_sound(ts: Seq<TokenView>, pos: nat, rule: Rule)
    ensures
        sound(ts, pos, operand(ts, pos, rule), (rule.rank() - 1) as nat),
    decreases ts.len() - pos, 3 * rule.rank() + 1,
{
    match rule {
        Rule::Equality => lemma_binary_sound(ts, pos, Rule::Comparison),
        Rule::Comparison => lemma_binary_sound(ts, pos, Rule::Term),
        Rule::Term => lemma_binary_sound(ts, pos, Rule::Factor),
        Rule::Factor => lemma_unary_sound(ts, pos),
    }
}

/// Where `left` is a reading of the tokens from `start` to `pos` that
/// `rule` derives, so is what `rest` makes of it, of the tokens from
/// `start` to where it ends.
pub proof fn lemma_rest_sound(
    ts: Seq<TokenView>,
    left: ExprView,
    start: nat,
    pos: nat,
    rule: Rule,
)
    requires
        reads(left, ts, start as int, pos as int),
        conforms(left, rule.rank()),
    ensures
        sound(ts, start, rest(ts, left, pos, rule), rule.rank()),
    decreases ts.len() - pos, 3 * rule.rank(),
{
    if pos < ts.len() && rule.has_operator(type_at(ts, pos)) {
        lemma_operand_sound(ts, pos + 1, rule);
        match operand(ts, pos + 1, rule) {
            Parsed::Tree { expr, next } => {
                if pos < next <= ts.len() {
                    let node = ExprView::Binary {
                        left: Box::new(left),
                        operator: ts[pos as int],
                        right: Box::new(expr),
                    };
                    assert(binding(ts[pos as int].token_type) == rule.rank());
                    assert(reads(node, ts, start as int, next as int)) by {
                        let mid = pos as int;
                        assert(ts[mid] == ts[pos as int]);
                    }
                    lemma_rest_sound(ts, node, start, next, rule);
                }
            },
            _ => {},
        }
    }
}

/// What `binary` parses is a reading of its tokens that `rule` derives.
pub proof fn lemma_binary_sound(ts: Seq<TokenView>, pos: nat, rule: Rule)
    ensures
        sound(ts, pos, binary(ts, pos, rule), rule.rank()),
    decreases ts.len() - pos, 3 * rule.rank() + 2,
{
    lemma_operand_sound(ts, pos, rule);
    match operand(ts, pos, rule) {
        Parsed::Tree { expr, next } => {
            if pos <= next <= ts.len() {
                lemma_conforms_looser(expr, (rule.rank() - 1) as nat, rule.rank());
                lemma_rest_sound(ts, expr, pos, next, rule);
            }
        },
        _ => {},
    }
}

/// What `expression` parses is a reading of its tokens that the grammar
/// derives: the operators of every node are those of its rule, tighter
/// rules stand under looser ones, chains lean to the left, and every
/// grouping is one pair of parentheses around one expression.
pub proof fn lemma_expression_sound(ts: Seq<TokenView>, pos: nat)
    ensures
        sound(ts, pos, expression(ts, pos), 4),
    decreases ts.len() - pos, 15nat,
{
    if pos < ts.len() {
        lemma_binary_sound(ts, pos, Rule::Equality);
    }
}

/// Whether every literal of the tree `e` is well formed.
pub open spec fn literals_wf(e: ExprView) -> bool
    decreases e,
{
    match e {
        ExprView::Binary { left, operator, right } => literals_wf(*left) && literals_wf(*right),
        ExprView::Grouping { expression } => literals_wf(*expression),
        ExprView::Literal { literal } => literal.wf(),
        ExprView::Unary { operator, right } => literals_wf(*right),
    }
}

/// Whether every token of `ts` carries a well-formed value.
pub open spec fn tokens_wf(ts: Seq<TokenView>) -> bool {
    forall|i: int| 0 <= i < ts.len() ==> (#[trigger] ts[i]).literal.wf()
}

/// A reading of tokens with well-formed values has well-formed literals.
pub proof fn lemma_reading_wf(e: ExprView, ts: Seq<TokenView>, from: int, to: int)
    requires
        tokens_wf(ts),
        reads(e, ts, from, to),
    ensures
        literals_wf(e),
    decreases e,
{
    match e {
        ExprView::Binary { left, operator, right } => {
            let mid = choose|mid: int|
                {
                    &&& from < mid < to
                    &&& #[trigger] ts[mid] == operator
                    &&& reads(*left, ts, from, mid)
                    &&& reads(*right, ts, mid + 1, to)
                };
            lemma_reading_wf(*left, ts, from, mid);
            lemma_reading_wf(*right, ts, mid + 1, to);
        },
        ExprView::Grouping { expression } => {
            lemma_reading_wf(*expression, ts, from + 1, to - 1);
        },
        ExprView::Literal { literal } => {
            assert(ts[from].literal.wf());
        },
        ExprView::Unary { operator, right } => {
            lemma_reading_wf(*right, ts, from + 1, to);
        },
    }
}

/// Whether a token of category `t` can be the first of an expression.
pub open spec fn starts_expression(t: TokenType) -> bool {
    is_prefix_operator(t) || t == TokenType::False || t == TokenType::True || t == TokenType::Nil
        || t == TokenType::Number || t == TokenType::String || t == TokenType::LeftParen
}

/// Where `unary` fails, every looser rule fails too.
pub proof fn lemma_unary_failure_spreads(ts: Seq<TokenView>, pos: nat)
    requires
        unary(ts, pos) is Failure,
    ensures
        expression(ts, pos) is Failure,
{
    assert(operand(ts, pos, Rule::Factor) is Failure);
    assert(binary(ts, pos, Rule::Factor) is Failure);
    assert(operand(ts, pos, Rule::Term) is Failure);
    assert(binary(ts, pos, Rule::Term) is Failure);
    assert(operand(ts, pos, Rule::Comparison) is Failure);
    assert(binary(ts, pos, Rule::Comparison) is Failure);
    assert(operand(ts, pos, Rule::Equality) is Failure);
    assert(binary(ts, pos, Rule::Equality) is Failure);
}

/// No expression starts with a token that cannot start one.
pub proof fn lemma_no_start_fails(ts: Seq<TokenView>, pos: nat)
    requires
        !starts_expression(type_at(ts, pos)),
    ensures
        unary(ts, pos) is Failure,
        expression(ts, pos) is Failure,
{
    assert(primary(ts, pos) is Failure);
    lemma_unary_failure_spreads(ts, pos);
}

/// A grouping fails where the expression after its opening parenthesis
/// fails.
pub proof fn lemma_grouping_failure(ts: Seq<TokenView>, pos: nat)
    requires
        type_at(ts, pos) == TokenType::LeftParen,
        expression(ts, pos + 1) is Failure,
    ensures
        unary(ts, pos) is Failure,
{
    assert(primary(ts, pos) is Failure);
}

/// A prefix operator fails where what follows it fails.
pub proof fn lemma_prefix_failure(ts: Seq<TokenView>, pos: nat)
    requires
        is_prefix_operator(type_at(ts, pos)),
        unary(ts, pos + 1) is Failure,
    ensures
        unary(ts, pos) is Failure,
{
}

/// The rule of rank `rank`, from 1 to 4, or `unary` for rank 0, applied at
/// `pos`.
pub open spec fn level(ts: Seq<TokenView>, pos: nat, rank: nat) -> Parsed {
    if rank == 0 {
        unary(ts, pos)
    } else if rank == 1 {
        binary(ts, pos, Rule::Factor)
    } else if rank == 2 {
        binary(ts, pos, Rule::Term)
    } else if rank == 3 {
        binary(ts, pos, Rule::Comparison)
    } else {
        binary(ts, pos, Rule::Equality)
    }
}

/// Whether a chain of rank `rank` stops before the token at `next`: that
/// token is no binary operator, or one that binds more loosely.
pub open spec fn stops(ts: Seq<TokenView>, next: nat, rank: nat) -> bool {
    binding(type_at(ts, next)) == 0 || binding(type_at(ts, next)) > rank
}

/// Whether `parsed`, if it is a tree, ends where a chain of rank `rank`
/// stops.
pub open spec fn ends_chain(ts: Seq<TokenView>, parsed: Parsed, rank: nat) -> bool {
    parsed matches Parsed::Tree { expr, next } ==> stops(ts, next, rank)
}

/// `rest` takes every operator of its rule: where the operand before `pos`
/// ends a chain of the next tighter rank, the tree ends a chain of the
/// rule's rank.
pub proof fn lemma_rest_is_greedy(ts: Seq<TokenView>, left: ExprView, pos: nat, rule: Rule)
    requires
        stops(ts, pos, (rule.rank() - 1) as nat),
    ensures
        ends_chain(ts, rest(ts, left, pos, rule), rule.rank()),
    decreases ts.len() - pos, 3 * rule.rank(),
{
    if pos < ts.len() && rule.has_operator(type_at(ts, pos)) {
        lemma_operand_is_greedy(ts, pos + 1, rule);
        match operand(ts, pos + 1, rule) {
            Parsed::Tree { expr, next } => {
                if pos < next <= ts.len() {
                    lemma_rest_is_greedy(
                        ts,
                        ExprView::Binary {
                            left: Box::new(left),
                            operator: ts[pos as int],
                            right: Box::new(expr),
                        },
                        next,
                        rule,
                    );
                }
            },
            _ => {},
        }
    }
}

/// `operand` takes every operator of the tighter rules.
pub proof fn lemma_operand_is_greedy(ts: Seq<TokenView>, pos: nat, rule: Rule)
    ensures
        ends_chain(ts, operand(ts, pos, rule), (rule.rank() - 1) as nat),
    decreases ts.len() - pos, 3 * rule.rank() + 1,
{
    match rule {
        Rule::Equality => lemma_binary_is_greedy(ts, pos, Rule::Comparison),
        Rule::Comparison => lemma_binary_is_greedy(ts, pos, Rule::Term),
        Rule::Term => lemma_binary_is_greedy(ts, pos, Rule::Factor),
        Rule::Factor => {},
    }
}

/// `binary` takes every operator of its rule and of the tighter rules: the
/// token after its tree is none of them.
pub proof fn lemma_binary_is_greedy(ts: Seq<TokenView>, pos: nat, rule: Rule)
    ensures
        ends_chain(ts, binary(ts, pos, rule), rule.rank()),
    decreases ts.len() - pos, 3 * rule.rank() + 2,
{
    lemma_operand_is_greedy(ts, pos, rule);
    match operand(ts, pos, rule) {
        Parsed::Tree { expr, next } => {
            if pos <= next <= ts.len() {
                lemma_rest_is_greedy(ts, expr, next, rule);
            }
        },
        _ => {},
    }
}

/// Whether `e` is a binary node with an operator of rank `rank`.
pub open spec fn is_chain(e: ExprView, rank: nat) -> bool {
    e matches ExprView::Binary { left, operator, right } && binding(operator.token_type) == rank
}

/// A chain read so far is what `binary` has made when it comes to its end:
/// where `e` is a reading of the tokens from `pos` to `next` that `rule`
/// derives, and the token at `next` is no operator of a tighter rule,
/// `binary` from `pos` goes on from `next` with `e` on its left.
pub proof fn lemma_chain_is_found(
    e: ExprView,
    ts: Seq<TokenView>,
    pos: nat,
    next: nat,
    rule: Rule,
)
    requires
        reads(e, ts, pos as int, next as int),
        conforms(e, rule.rank()),
        stops(ts, next, (rule.rank() - 1) as nat),
    ensures
        binary(ts, pos, rule) == rest(ts, e, next, rule),
    decreases e, rule.rank(), 0nat,
{
    let rank = rule.rank();
    assert(operand(ts, pos, rule) == level(ts, pos, (rank - 1) as nat));
    if is_chain(e, rank) {
        let left = *e->Binary_left;
        let right = *e->Binary_right;
        let operator = e->Binary_operator;
        let mid = choose|mid: int|
            {
                &&& pos < mid < next
                &&& #[trigger] ts[mid] == operator
                &&& reads(left, ts, pos as int, mid)
                &&& reads(right, ts, mid + 1, next as int)
            };
        lemma_chain_is_found(left, ts, pos, mid as nat, rule);
        lemma_reading_is_found(right, ts, (mid + 1) as nat, next, (rank - 1) as nat);
        assert(operand(ts, (mid + 1) as nat, rule) == level(
            ts,
            (mid + 1) as nat,
            (rank - 1) as nat,
        ));
        assert(rule.has_operator(type_at(ts, mid as nat)));
        assert(e == ExprView::Binary {
            left: Box::new(left),
            operator: ts[mid],
            right: Box::new(right),
        });
    } else {
        lemma_conforms_tighter(e, rank);
        lemma_reading_is_found(e, ts, pos, next, (rank - 1) as nat);
    }
}

/// A tree that a rule derives without an operator of that rule at its top
/// is derived by the next tighter rule.
pub proof fn lemma_conforms_tighter(e: ExprView, rank: nat)
    requires
        rank >= 1,
        conforms(e, rank),
        !is_chain(e, rank),
    ensures
        conforms(e, (rank - 1) as nat),
{
}

/// The grammar reads tokens in one way only, and the parser finds it:
/// where `e` is a reading of the tokens from `pos` to `next` that the rule
/// of rank `rank` derives, and a chain of that rank stops at `next`, that
/// rule applied at `pos` gives `e` and ends at `next`.
pub proof fn lemma_reading_is_found(
    e: ExprView,
    ts: Seq<TokenView>,
    pos: nat,
    next: nat,
    rank: nat,
)
    requires
        rank <= 4,
        reads(e, ts, pos as int, next as int),
        conforms(e, rank),
        stops(ts, next, rank),
    ensures
        level(ts, pos, rank) == (Parsed::Tree { expr: e, next }),
    decreases e, rank, 1nat,
{
    if rank == 0 {
        match e {
            ExprView::Binary { left, operator, right } => {},
            ExprView::Grouping { expression: inner } => {
                lemma_reading_is_found(*inner, ts, pos + 1, (next - 1) as nat, 4);
                assert(expression(ts, pos + 1) == level(ts, pos + 1, 4));
                assert(primary(ts, pos) == (Parsed::Tree { expr: e, next }));
            },
            ExprView::Literal { literal } => {
                assert(primary(ts, pos) == (Parsed::Tree { expr: e, next }));
            },
            ExprView::Unary { operator, right } => {
                lemma_reading_is_found(*right, ts, pos + 1, next, 0);
                assert(unary(ts, pos) == (Parsed::Tree { expr: e, next }));
            },
        }
    } else {
        let rule = if rank == 1 {
            Rule::Factor
        } else if rank == 2 {
            Rule::Term
        } else if rank == 3 {
            Rule::Comparison
        } else {
            Rule::Equality
        };
        lemma_chain_is_found(e, ts, pos, next, rule);
    }
}

/// What parsing gives is what the grammar says, and nothing else: parsing
/// from `pos` gives the tree `e` and ends at `next` exactly when `e` is a
/// reading of the tokens from `pos` to `next` that the grammar derives and
/// the token at `next` is no binary operator.
pub proof fn lemma_expression_is_the_reading(
    e: ExprView,
    ts: Seq<TokenView>,
    pos: nat,
    next: nat,
)
    ensures
        expression(ts, pos) == (Parsed::Tree { expr: e, next }) <==> reads(
            e,
            ts,
            pos as int,
            next as int,
        ) && conforms(e, 4) && !is_binary_operator(type_at(ts, next)),
{
    if expression(ts, pos) == (Parsed::Tree { expr: e, next }) {
        lemma_expression_sound(ts, pos);
        lemma_binary_is_greedy(ts, pos, Rule::Equality);
    }
    if reads(e, ts, pos as int, next as int) && conforms(e, 4) && !is_binary_operator(
        type_at(ts, next),
    ) {
        lemma_reading_is_found(e, ts, pos, next, 4);
    }
}

/// Parsing fails exactly when the tokens from `pos` on start with no
/// expression: no tree is a reading of them, up to a token that is no
/// binary operator, that the grammar derives.
pub proof fn lemma_failure_is_no_reading(ts: Seq<TokenView>, pos: nat)
    ensures
        expression(ts, pos) is Failure <==> forall|e: ExprView, next: nat|
            !(#[trigger] reads(e, ts, pos as int, next as int) && conforms(e, 4)
                && !is_binary_operator(type_at(ts, next))),
{
    match expression(ts, pos) {
        Parsed::Tree { expr, next } => {
            lemma_expression_is_the_reading(expr, ts, pos, next);
            assert(reads(expr, ts, pos as int, next as int));
        },
        Parsed::Failure { at, message } => {
            assert forall|e: ExprView, next: nat|
                !(#[trigger] reads(e, ts, pos as int, next as int) && conforms(e, 4)
                    && !is_binary_operator(type_at(ts, next))) by {
                lemma_expression_is_the_reading(e, ts, pos, next);
            }
        },
    }
}

} // verus!
