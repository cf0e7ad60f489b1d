//! The printed form as a canonical form: which printed texts, read back as
//! source, print as themselves.

use crate::ast_printer::{printed, spaced};
use crate::chars::{lemma_prefix_len_is, word_chars};
use crate::decimal::{decimal_of, lemma_text_round_trip, DecimalView};
use crate::expr::ExprView;
use crate::grammar::{
    binding, conforms, expression, is_binary_operator, is_prefix_operator, lemma_expression_alone,
    lemma_expression_sound, lemma_grouping_failure, lemma_no_start_fails, lemma_prefix_failure,
    lemma_unary_failure_spreads, primary, reads, starts_expression, unary, Parsed,
};
use crate::lexical::{
    blank, emitted, eof_token, first_lexeme, fits, keyword, lemma_scan_numeral,
    lemma_scan_tokens_fit, lemma_string_token_has_quote, operator_lexeme, plain, scan, scan_source,
    word_lexeme, Lexed, Scanned,
};
use crate::literal::LiteralView;
use crate::token::TokenView;
use crate::token_type::TokenType;
use crate::{run_output, run_reports, DiagnosticView};
use vstd::prelude::*;

verus! {

/// The text of a boolean.
pub open spec fn boolean_text(b: bool) -> Seq<char> {
    LiteralView::Boolean(b).text()
}

/// Whether `t` is the canonical text of a number or of a boolean.
pub open spec fn is_literal_text(t: Seq<char>) -> bool {
    t == boolean_text(true) || t == boolean_text(false) || exists|d: DecimalView|
        d.wf() && t == #[trigger] d.text()
}

/// A source text that is one token, `token`, which is a literal, holds the
/// expression that is this literal and has no error.
proof fn lemma_run_single_literal(source: Seq<char>, token: TokenView, literal: LiteralView)
    requires
        scan_source(source) == (Scanned {
            tokens: seq![token, eof_token(1)],
            errors: Seq::empty(),
        }),
        primary(seq![token, eof_token(1)], 0) == (Parsed::Tree {
            expr: ExprView::Literal { literal },
            next: 1,
        }),
        !is_prefix_operator(token.token_type),
    ensures
        run_output(source) == Some(literal.text()),
        run_reports(source) == Seq::<DiagnosticView>::empty(),
{
    let ts = seq![token, eof_token(1)];
    lemma_expression_alone(ts, 0);
    assert(printed(ExprView::Literal { literal }) == literal.text());
    assert(run_reports(source) =~= Seq::<DiagnosticView>::empty());
}

/// The text of a number, read back as source, prints as itself.
pub proof fn lemma_number_reprints(d: DecimalView)
    requires
        d.wf(),
    ensures
        run_output(d.text()) == Some(d.text()),
        run_reports(d.text()) == Seq::<DiagnosticView>::empty(),
{
    let s = d.text();
    lemma_text_round_trip(d);
    lemma_scan_numeral(s, 1);
    let token = TokenView {
        token_type: TokenType::Number,
        lexeme: s,
        literal: LiteralView::Number(decimal_of(s)),
        line: 1,
    };
    lemma_run_single_literal(s, token, LiteralView::Number(d));
}

/// The text of a boolean, read back as source, prints as itself.
pub proof fn lemma_boolean_reprints(b: bool)
    ensures
        run_output(boolean_text(b)) == Some(boolean_text(b)),
        run_reports(boolean_text(b)) == Seq::<DiagnosticView>::empty(),
{
    let s = boolean_text(b);
    reveal_strlit("true");
    reveal_strlit("false");
    reveal_strlit("and");
    reveal_strlit("class");
    reveal_strlit("else");
    reveal_strlit("for");
    reveal_strlit("fun");
    reveal_strlit("if");
    reveal_strlit("nil");
    reveal_strlit("or");
    reveal_strlit("print");
    reveal_strlit("return");
    reveal_strlit("super");
    reveal_strlit("this");
    let token_type = if b {
        TokenType::True
    } else {
        TokenType::False
    };
    assert forall|i: int| 0 <= i < s.len() implies word_chars()(#[trigger] s[i]) by {}
    lemma_prefix_len_is(s, word_chars(), s.len() as int);
    assert(s.take(s.len() as int) =~= s);
    assert(keyword(s) == Some(token_type)) by {
        if b {
            assert(s[0] == 't' && s[1] == 'r' && s.len() == 4);
        } else {
            assert(s[0] == 'f' && s[1] == 'a' && s.len() == 5);
        }
    }
    assert(first_lexeme(s) == word_lexeme(s));
    let token = TokenView { token_type, lexeme: s, literal: LiteralView::Empty, line: 1 };
    let rest = s.skip(s.len() as int);
    assert(rest.len() == 0);
    assert(scan(rest, 1).tokens =~= seq![eof_token(1)]);
    assert(scan(s, 1).tokens =~= seq![token, eof_token(1)]);
    assert(scan(s, 1).errors =~= Seq::empty());
    lemma_run_single_literal(s, token, LiteralView::Boolean(b));
}

/// Printing is a fixed point on the texts of numbers and booleans: where a
/// tree prints as such a text, scanning, parsing and printing that text
/// gives the same text again, with no error.
pub proof fn lemma_print_is_fixed_point(e: ExprView)
    requires
        is_literal_text(printed(e)),
    ensures
        run_output(printed(e)) == Some(printed(e)),
        run_reports(printed(e)) == Seq::<DiagnosticView>::empty(),
{
    let t = printed(e);
    if t == boolean_text(true) {
        lemma_boolean_reprints(true);
    } else if t == boolean_text(false) {
        lemma_boolean_reprints(false);
    } else {
        let d = choose|d: DecimalView| d.wf() && t == #[trigger] d.text();
        lemma_number_reprints(d);
    }
}

/// Whether the tree `x` starts with a grouping: it is one, or a binary
/// node, with its operator written as operators are, whose left operand
/// starts with one.
pub open spec fn opens_with_grouping(x: ExprView) -> bool
    decreases x,
{
    match x {
        ExprView::Grouping { expression } => true,
        ExprView::Binary { left, operator, right } => {
            &&& is_binary_operator(operator.token_type)
            &&& operator.lexeme == operator_lexeme(operator.token_type)
            &&& opens_with_grouping(*left)
        },
        _ => false,
    }
}

/// A reading of tokens that start with a left parenthesis starts with a
/// grouping.
proof fn lemma_reading_opens_with_grouping(
    x: ExprView,
    ts: Seq<TokenView>,
    from: int,
    to: int,
    k: nat,
)
    requires
        reads(x, ts, from, to),
        conforms(x, k),
        ts[from].token_type == TokenType::LeftParen,
        forall|i: int| 0 <= i < ts.len() ==> fits(#[trigger] ts[i]),
    ensures
        opens_with_grouping(x),
    decreases x,
{
    match x {
        ExprView::Binary { left, operator, right } => {
            let mid = choose|mid: int|
                {
                    &&& from < mid < to
                    &&& #[trigger] ts[mid] == operator
                    &&& reads(*left, ts, from, mid)
                    &&& reads(*right, ts, mid + 1, to)
                };
            lemma_reading_opens_with_grouping(*left, ts, from, mid, binding(operator.token_type));
            assert(fits(ts[mid]));
            lemma_operators_are_written(operator.token_type);
        },
        _ => {},
    }
}

/// Every binary operator has a lexeme, of one or two characters, that
/// starts with neither a blank nor a character of words.
proof fn lemma_operators_are_written(t: TokenType)
    requires
        is_binary_operator(t),
    ensures
        1 <= operator_lexeme(t).len() <= 2,
{
    reveal_strlit("-");
    reveal_strlit("+");
    reveal_strlit("/");
    reveal_strlit("*");
    reveal_strlit("!=");
    reveal_strlit("==");
    reveal_strlit(">");
    reveal_strlit(">=");
    reveal_strlit("<");
    reveal_strlit("<=");
}

/// A text that starts with a binary operator and a space starts with the
/// token of that operator.
proof fn lemma_operator_is_scanned(t: TokenType, u: Seq<char>)
    requires
        is_binary_operator(t),
        u.len() > operator_lexeme(t).len(),
        u.take(operator_lexeme(t).len() as int) == operator_lexeme(t),
        u[operator_lexeme(t).len() as int] == ' ',
    ensures
        first_lexeme(u) == plain(operator_lexeme(t).len(), t),
{
    reveal_strlit("-");
    reveal_strlit("+");
    reveal_strlit("/");
    reveal_strlit("*");
    reveal_strlit("!=");
    reveal_strlit("==");
    reveal_strlit(">");
    reveal_strlit(">=");
    reveal_strlit("<");
    reveal_strlit("<=");
    let lex = operator_lexeme(t);
    assert(u[0] == u.take(lex.len() as int)[0]);
    if lex.len() == 2 {
        assert(u[1] == u.take(lex.len() as int)[1]);
    }
}

/// Where the tokens of `ts` from `pos` on are those of the text `u`, and
/// `u` starts with a lexeme that is a token on one line, that token is at
/// `pos`, and the tokens after it are those of the rest of `u`.
proof fn lemma_token_step(u: Seq<char>, line: nat, ts: Seq<TokenView>, pos: nat)
    requires
        pos <= ts.len(),
        ts.skip(pos as int) == scan(u, line).tokens,
        u.len() > 0,
        first_lexeme(u).lexed is Token,
        first_lexeme(u).newlines == 0,
        0 < first_lexeme(u).len <= u.len(),
    ensures
        pos < ts.len(),
        Some(ts[pos as int].token_type) == match first_lexeme(u).lexed {
            Lexed::Token { token_type, literal } => Some(token_type),
            _ => None,
        },
        ts.skip(pos as int + 1) == scan(u.skip(first_lexeme(u).len as int), line).tokens,
{
    let lx = first_lexeme(u);
    let rest = scan(u.skip(lx.len as int), line);
    let step = emitted(lx.lexed, u.take(lx.len as int), line);
    assert(scan(u, line).tokens == step + rest.tokens);
    assert(ts.skip(pos as int)[0] == step[0]);
    assert(ts.skip(pos as int + 1) =~= ts.skip(pos as int).skip(1));
    assert((step + rest.tokens).skip(1) =~= rest.tokens);
}

/// How the printed form of a grouping starts: a left parenthesis, the
/// word `group`, a space.
proof fn lemma_printed_grouping_text(inner: ExprView, w: Seq<char>)
    ensures
        ({
            let u = printed(ExprView::Grouping { expression: Box::new(inner) }) + w;
            &&& u.len() > 6
            &&& u[0] == '('
            &&& u.skip(1).take(5) == "group"@
            &&& u.skip(1)[5] == ' '
        }),
{
    reveal_strlit("group");
    let u = printed(ExprView::Grouping { expression: Box::new(inner) }) + w;
    let parts = seq![printed(inner)];
    assert(parts.drop_last() =~= Seq::<Seq<char>>::empty());
    assert(spaced(parts) == spaced(parts.drop_last()) + seq![' '] + parts.last());
    assert(spaced(parts.drop_last()) =~= Seq::<char>::empty());
    let tail = printed(inner) + seq![')'] + w;
    assert(u =~= seq!['('] + "group"@ + seq![' '] + tail);
    assert(u.skip(1).take(5) =~= "group"@);
}

/// How the printed form of a binary node starts: a left parenthesis, the
/// operator's lexeme, a space, the printed form of the left operand.
proof fn lemma_printed_binary_text(
    left: ExprView,
    operator: TokenView,
    right: ExprView,
    w: Seq<char>,
)
    ensures
        ({
            let u = printed(
                ExprView::Binary { left: Box::new(left), operator, right: Box::new(right) },
            ) + w;
            let n = operator.lexeme.len() as int;
            let after = seq![' '] + printed(right) + seq![')'] + w;
            &&& u.len() > n + 2
            &&& u[0] == '('
            &&& u.skip(1).take(n) == operator.lexeme
            &&& u.skip(1)[n] == ' '
            &&& u.skip(1).skip(n).skip(1) == printed(left) + after
        }),
{
    let u = printed(ExprView::Binary { left: Box::new(left), operator, right: Box::new(right) })
        + w;
    let lex = operator.lexeme;
    let n = lex.len() as int;
    let parts = seq![printed(left), printed(right)];
    let first = parts.drop_last();
    assert(first =~= seq![printed(left)]);
    assert(first.drop_last() =~= Seq::<Seq<char>>::empty());
    assert(spaced(parts) == spaced(first) + seq![' '] + parts.last());
    assert(spaced(first) == spaced(first.drop_last()) + seq![' '] + first.last());
    assert(spaced(first.drop_last()) =~= Seq::<char>::empty());
    let after = seq![' '] + printed(right) + seq![')'] + w;
    assert(u =~= seq!['('] + lex + seq![' '] + (printed(left) + after));
    assert(u.skip(1).take(n) =~= lex);
    assert(u.skip(1).skip(n).skip(1) =~= printed(left) + after);
}

/// The printed form of a tree that starts with a grouping, with any text
/// after it, holds no expression: parsing its tokens fails.
proof fn lemma_printed_grouping_fails(
    x: ExprView,
    w: Seq<char>,
    line: nat,
    ts: Seq<TokenView>,
    pos: nat,
)
    requires
        opens_with_grouping(x),
        pos <= ts.len(),
        ts.skip(pos as int) == scan(printed(x) + w, line).tokens,
    ensures
        unary(ts, pos) is Failure,
    decreases x,
{
    let u = printed(x) + w;
    let v = u.skip(1);
    match x {
        ExprView::Grouping { expression: inner } => {
            lemma_printed_grouping_text(*inner, w);
            lemma_token_step(u, line, ts, pos);
            lemma_group_is_identifier(v);
            lemma_token_step(v, line, ts, pos + 1);
            lemma_no_start_fails(ts, pos + 1);
        },
        ExprView::Binary { left, operator, right } => {
            let t = operator.token_type;
            let n = operator.lexeme.len() as int;
            lemma_operators_are_written(t);
            lemma_printed_binary_text(*left, operator, *right, w);
            lemma_token_step(u, line, ts, pos);
            lemma_operator_is_scanned(t, v);
            lemma_token_step(v, line, ts, pos + 1);
            if t == TokenType::Minus {
                let b = v.skip(n);
                let after = seq![' '] + printed(*right) + seq![')'] + w;
                assert(first_lexeme(b) == blank(1, 0));
                assert(scan(b, line).tokens =~= scan(b.skip(1), line).tokens);
                lemma_printed_grouping_fails(*left, after, line, ts, pos + 2);
                lemma_prefix_failure(ts, pos + 1);
                lemma_unary_failure_spreads(ts, pos + 1);
            } else {
                assert(!starts_expression(t));
                lemma_no_start_fails(ts, pos + 1);
            }
        },
        _ => {},
    }
    lemma_grouping_failure(ts, pos);
}

/// A text that starts with the word `group` and a space starts with an
/// identifier.
proof fn lemma_group_is_identifier(v: Seq<char>)
    requires
        v.len() > 5,
        v.take(5) == "group"@,
        v[5] == ' ',
    ensures
        first_lexeme(v) == plain(5, TokenType::Identifier),
{
    reveal_strlit("group");
    lemma_keywords_revealed();
    let word = v.take(5);
    assert forall|i: int| 0 <= i < 5 implies word_chars()(#[trigger] v[i]) by {
        assert(v[i] == word[i]);
    }
    assert(v[0] == word[0]);
    lemma_prefix_len_is(v, word_chars(), 5);
    assert(keyword(word) is None);
    assert(first_lexeme(v) == word_lexeme(v));
}

/// The first character and the length of every keyword.
proof fn lemma_keywords_revealed()
    ensures
        "and"@.len() == 3 && "and"@[0] == 'a',
        "class"@.len() == 5 && "class"@[0] == 'c',
        "else"@.len() == 4 && "else"@[0] == 'e',
        "false"@.len() == 5 && "false"@[0] == 'f',
        "for"@.len() == 3 && "for"@[0] == 'f',
        "fun"@.len() == 3 && "fun"@[0] == 'f',
        "if"@.len() == 2 && "if"@[0] == 'i',
        "nil"@.len() == 3 && "nil"@[0] == 'n',
        "or"@.len() == 2 && "or"@[0] == 'o',
        "print"@.len() == 5 && "print"@[0] == 'p',
        "return"@.len() == 6 && "return"@[0] == 'r',
        "super"@.len() == 5 && "super"@[0] == 's',
        "this"@.len() == 4 && "this"@[0] == 't',
        "true"@.len() == 4 && "true"@[0] == 't',
        "var"@.len() == 3 && "var"@[0] == 'v',
        "while"@.len() == 5 && "while"@[0] == 'w',
{
    reveal_strlit("and");
    reveal_strlit("class");
    reveal_strlit("else");
    reveal_strlit("false");
    reveal_strlit("for");
    reveal_strlit("fun");
    reveal_strlit("if");
    reveal_strlit("nil");
    reveal_strlit("or");
    reveal_strlit("print");
    reveal_strlit("return");
    reveal_strlit("super");
    reveal_strlit("this");
    reveal_strlit("true");
    reveal_strlit("var");
    reveal_strlit("while");
}

/// The text `null` is an identifier, not the token of the absent value.
proof fn lemma_null_is_identifier()
    ensures
        scan_source("null"@).tokens[0].token_type == TokenType::Identifier,
{
    reveal_strlit("null");
    lemma_keywords_revealed();
    let s = "null"@;
    assert forall|i: int| 0 <= i < s.len() implies word_chars()(#[trigger] s[i]) by {}
    lemma_prefix_len_is(s, word_chars(), 4);
    assert(s.take(4) =~= s);
    assert(keyword(s) is None);
    assert(first_lexeme(s) == word_lexeme(s));
}

/// Only the texts of numbers and booleans print as themselves: a source
/// text whose expression prints as that same text is such a text.
pub proof fn lemma_fixed_point_is_literal_text(t: Seq<char>)
    requires
        run_output(t) == Some(t),
    ensures
        is_literal_text(t),
{
    let ts = scan_source(t).tokens;
    let e = expression(ts, 0)->expr;
    let next = expression(ts, 0)->next;
    lemma_expression_sound(ts, 0);
    lemma_scan_tokens_fit(t, 1);
    assert(fits(ts[0]));
    match e {
        ExprView::Literal { literal } => {
            let first = ts[0].token_type;
            if first == TokenType::Nil {
                lemma_null_is_identifier();
            } else if first == TokenType::String {
                lemma_string_token_has_quote(t, 1, 0);
            } else if first == TokenType::Number {
                let d = literal->Number_0;
                assert(d.wf() && t == d.text());
            }
        },
        _ => {
            assert(t[0] == '(');
            assert(ts.skip(0) =~= ts);
            lemma_token_step(t, 1, ts, 0);
            lemma_reading_opens_with_grouping(e, ts, 0, next as int, 4);
            assert(printed(e) + Seq::<char>::empty() =~= printed(e));
            lemma_printed_grouping_fails(e, Seq::empty(), 1, ts, 0);
            lemma_unary_failure_spreads(ts, 0);
        },
    }
}

/// A source text prints as itself exactly when it is the text of a number
/// or of a boolean.
pub proof fn lemma_fixed_points(t: Seq<char>)
    ensures
        run_output(t) == Some(t) <==> is_literal_text(t),
{
    if run_output(t) == Some(t) {
        lemma_fixed_point_is_literal_text(t);
    }
    if is_literal_text(t) {
        lemma_print_is_fixed_point(ExprView::Literal { literal: LiteralView::String(t) });
    }
}

} // verus!
