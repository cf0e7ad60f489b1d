//! The lexical grammar: what the first lexeme of a text is, and which tokens
//! and diagnostics a whole text gives.

use crate::chars::{
    count_newlines, digits, is_alpha, is_digit, not_newline, not_quote, prefix_len, word_chars,
};
use crate::chars::{lemma_count_newlines_first, lemma_prefix_len, lemma_prefix_len_is};
use crate::decimal::{
    decimal_of, is_numeral, lemma_decimal_of_wf, lemma_numeral_prefix, numeral_len,
};
use crate::literal::LiteralView;
use crate::token::TokenView;
use crate::token_type::TokenType;
use crate::{lexical_error, DiagnosticView};
use vstd::prelude::*;

verus! {

/// The message for a character that starts no lexeme.
pub open spec fn unexpected_character() -> Seq<char> {
    "Unexpected character"@
}

/// The message for a string literal without its closing quote.
pub open spec fn unterminated_string() -> Seq<char> {
    "Unterminated string."@
}

/// The keyword that `word` spells, if it spells one.
pub open spec fn keyword(word: Seq<char>) -> Option<TokenType> {
    if word == "and"@ {
        Some(TokenType::And)
    } else if word == "class"@ {
        Some(TokenType::Class)
    } else if word == "else"@ {
        Some(TokenType::Else)
    } else if word == "false"@ {
        Some(TokenType::False)
    } else if word == "for"@ {
        Some(TokenType::For)
    } else if word == "fun"@ {
        Some(TokenType::Fun)
    } else if word == "if"@ {
        Some(TokenType::If)
    } else if word == "nil"@ {
        Some(TokenType::Nil)
    } else if word == "or"@ {
        Some(TokenType::Or)
    } else if word == "print"@ {
        Some(TokenType::Print)
    } else if word == "return"@ {
        Some(TokenType::Return)
    } else if word == "super"@ {
        Some(TokenType::Super)
    } else if word == "this"@ {
        Some(TokenType::This)
    } else if word == "true"@ {
        Some(TokenType::True)
    } else if word == "var"@ {
        Some(TokenType::Var)
    } else if word == "while"@ {
        Some(TokenType::While)
    } else {
        None
    }
}

/// What a lexeme stands for: a token, nothing (blank space or a comment), or
/// a lexical error.
pub enum Lexed {
    Token { token_type: TokenType, literal: LiteralView },
    Nothing,
    Error { message: Seq<char> },
}

/// One lexeme at the start of a text: how many characters it takes, how many
/// line feeds are among them, and what it stands for.
pub struct Lexeme {
    pub len: nat,
    pub newlines: nat,
    pub lexed: Lexed,
}

/// A lexeme of `len` characters, none a line feed, that is a token of
/// category `token_type` without a value.
pub open spec fn plain(len: nat, token_type: TokenType) -> Lexeme {
    Lexeme { len, newlines: 0, lexed: Lexed::Token { token_type, literal: LiteralView::Empty } }
}

/// A lexeme of `len` characters that stands for nothing.
pub open spec fn blank(len: nat, newlines: nat) -> Lexeme {
    Lexeme { len, newlines, lexed: Lexed::Nothing }
}

/// An operator that is `two` when `second` follows its first character, and
/// `one` otherwise.
pub open spec fn one_or_two(s: Seq<char>, second: char, two: TokenType, one: TokenType) -> Lexeme {
    if s.len() > 1 && s[1] == second {
        plain(2, two)
    } else {
        plain(1, one)
    }
}

/// A line comment: two slashes and everything up to, and without, the next
/// line feed.
pub open spec fn comment_lexeme(s: Seq<char>) -> Lexeme {
    blank(2 + prefix_len(s.skip(2), not_newline()), 0)
}

/// A string literal: everything from the opening quote to the next quote,
/// taken as it is. Without a closing quote it is an error that takes the
/// rest of the text.
pub open spec fn string_lexeme(s: Seq<char>) -> Lexeme {
    let body = prefix_len(s.drop_first(), not_quote());
    let text = s.subrange(1, 1 + body as int);
    if 1 + body < s.len() {
        Lexeme {
            len: body + 2,
            newlines: count_newlines(text),
            lexed: Lexed::Token {
                token_type: TokenType::String,
                literal: LiteralView::String(text),
            },
        }
    } else {
        Lexeme {
            len: s.len(),
            newlines: count_newlines(text),
            lexed: Lexed::Error { message: unterminated_string() },
        }
    }
}

/// A number literal, with the value it denotes.
pub open spec fn number_lexeme(s: Seq<char>) -> Lexeme {
    let n = numeral_len(s);
    Lexeme {
        len: n,
        newlines: 0,
        lexed: Lexed::Token {
            token_type: TokenType::Number,
            literal: LiteralView::Number(decimal_of(s.take(n as int))),
        },
    }
}

/// A word: a keyword if it spells one, an identifier otherwise.
pub open spec fn word_lexeme(s: Seq<char>) -> Lexeme {
    let n = prefix_len(s, word_chars());
    plain(
        n,
        match keyword(s.take(n as int)) {
            Some(k) => k,
            None => TokenType::Identifier,
        },
    )
}

/// The lexeme at the start of the non-empty text `s`.
pub open spec fn first_lexeme(s: Seq<char>) -> Lexeme
    recommends
        s.len() > 0,
{
    let c = s[0];
    if c == '(' {
        plain(1, TokenType::LeftParen)
    } else if c == ')' {
        plain(1, TokenType::RightParen)
    } else if c == '{' {
        plain(1, TokenType::LeftBrace)
    } else if c == '}' {
        plain(1, TokenType::RightBrace)
    } else if c == ',' {
        plain(1, TokenType::Comma)
    } else if c == '.' {
        plain(1, TokenType::Dot)
    } else if c == '-' {
        plain(1, TokenType::Minus)
    } else if c == '+' {
        plain(1, TokenType::Plus)
    } else if c == ';' {
        plain(1, TokenType::Semicolon)
    } else if c == '*' {
        plain(1, TokenType::Star)
    } else if c == '!' {
        one_or_two(s, '=', TokenType::BangEqual, TokenType::Bang)
    } else if c == '=' {
        one_or_two(s, '=', TokenType::EqualEqual, TokenType::Equal)
    } else if c == '<' {
        one_or_two(s, '=', TokenType::LessEqual, TokenType::Less)
    } else if c == '>' {
        one_or_two(s, '=', TokenType::GreaterEqual, TokenType::Greater)
    } else if c == '/' {
        if s.len() > 1 && s[1] == '/' {
            comment_lexeme(s)
        } else {
            plain(1, TokenType::Slash)
        }
    } else if c == ' ' || c == '\r' || c == '\t' {
        blank(1, 0)
    } else if c == '\n' {
        blank(1, 1)
    } else if c == '"' {
        string_lexeme(s)
    } else if is_digit(c) {
        number_lexeme(s)
    } else if is_alpha(c) {
        word_lexeme(s)
    } else {
        Lexeme { len: 1, newlines: 0, lexed: Lexed::Error { message: unexpected_character() } }
    }
}

/// The tokens that a lexeme with the text `text`, ending on `line`, adds to
/// the output: one or none.
pub open spec fn emitted(lexed: Lexed, text: Seq<char>, line: nat) -> Seq<TokenView> {
    match lexed {
        Lexed::Token { token_type, literal } => seq![
            TokenView { token_type, lexeme: text, literal, line },
        ],
        _ => Seq::empty(),
    }
}

/// The diagnostics that a lexeme ending on `line` gives: one or none.
pub open spec fn reported(lexed: Lexed, line: nat) -> Seq<DiagnosticView> {
    match lexed {
        Lexed::Error { message } => seq![lexical_error(line, message)],
        _ => Seq::empty(),
    }
}

/// The token that ends every token sequence.
pub open spec fn eof_token(line: nat) -> TokenView {
    TokenView {
        token_type: TokenType::Eof,
        lexeme: Seq::empty(),
        literal: LiteralView::Empty,
        line,
    }
}

/// The outcome of scanning a text: its tokens and the lexical errors in it.
pub struct Scanned {
    pub tokens: Seq<TokenView>,
    pub errors: Seq<DiagnosticView>,
}

/// Scans `s`, whose first character is on line `line`: lexeme after lexeme,
/// from left to right, then the end-of-input token on the last line.
pub open spec fn scan(s: Seq<char>, line: nat) -> Scanned
    decreases s.len(),
{
    if s.len() == 0 {
        Scanned { tokens: seq![eof_token(line)], errors: Seq::empty() }
    } else {
        let lx = first_lexeme(s);
        let at = line + lx.newlines;
        if 0 < lx.len <= s.len() {
            let rest = scan(s.skip(lx.len as int), at);
            Scanned {
                tokens: emitted(lx.lexed, s.take(lx.len as int), at) + rest.tokens,
                errors: reported(lx.lexed, at) + rest.errors,
            }
        } else {
            Scanned { tokens: seq![eof_token(at)], errors: Seq::empty() }
        }
    }
}

/// Scans a whole source text, which starts on line 1.
pub open spec fn scan_source(source: Seq<char>) -> Scanned {
    scan(source, 1)
}

/// Every lexeme of a non-empty text takes at least one character and no
/// more than there are.
pub proof fn lemma_first_lexeme_bounds(s: Seq<char>)
    requires
        s.len() > 0,
    ensures
        0 < first_lexeme(s).len <= s.len(),
{
    lemma_prefix_len(s.skip(2), not_newline());
    lemma_prefix_len(s.drop_first(), not_quote());
    lemma_prefix_len(s, word_chars());
    lemma_prefix_len(s, digits());
    let n = prefix_len(s, digits());
    lemma_prefix_len(s.skip(n as int + 1), digits());
    if is_alpha(s[0]) && prefix_len(s, word_chars()) == 0 {
        assert(!word_chars()(s[0]));
    }
    if is_digit(s[0]) && n == 0 {
        assert(!digits()(s[0]));
    }
}

/// The tokens of a text end with the end-of-input token, and no token
/// before it is one.
pub proof fn lemma_scan_one_eof(s: Seq<char>, line: nat)
    ensures
        scan(s, line).tokens.len() > 0,
        scan(s, line).tokens.last().token_type == TokenType::Eof,
        forall|i: int|
            0 <= i < scan(s, line).tokens.len() - 1 ==> (#[trigger] scan(
                s,
                line,
            ).tokens[i]).token_type != TokenType::Eof,
    decreases s.len(),
{
    if s.len() > 0 {
        let lx = first_lexeme(s);
        if 0 < lx.len <= s.len() {
            lemma_scan_one_eof(s.skip(lx.len as int), line + lx.newlines);
        }
    }
}

/// Every token of a text carries a well-formed value: the number of a
/// number token is a decimal in shortest form.
pub proof fn lemma_scan_literals_wf(s: Seq<char>, line: nat)
    ensures
        forall|i: int|
            0 <= i < scan(s, line).tokens.len() ==> (#[trigger] scan(s, line).tokens[i]).literal.wf(),
    decreases s.len(),
{
    if s.len() > 0 {
        let lx = first_lexeme(s);
        if 0 < lx.len <= s.len() {
            lemma_scan_literals_wf(s.skip(lx.len as int), line + lx.newlines);
            if is_digit(s[0]) {
                lemma_numeral_prefix(s);
                lemma_decimal_of_wf(s.take(numeral_len(s) as int));
            }
        }
    }
}

/// Blank space: a space, a carriage return, a tab or a line feed.
pub open spec fn is_blank(c: char) -> bool {
    c == ' ' || c == '\r' || c == '\t' || c == '\n'
}

/// A text of blank space alone has one token, the end of input on the line
/// that its line feeds lead to, and no error.
pub proof fn lemma_scan_blank(s: Seq<char>, line: nat)
    requires
        forall|i: int| 0 <= i < s.len() ==> is_blank(#[trigger] s[i]),
    ensures
        scan(s, line) == (Scanned {
            tokens: seq![eof_token(line + count_newlines(s))],
            errors: Seq::empty(),
        }),
    decreases s.len(),
{
    if s.len() > 0 {
        let rest = s.skip(1);
        assert(is_blank(s[0]));
        assert forall|i: int| 0 <= i < rest.len() implies is_blank(#[trigger] rest[i]) by {
            assert(rest[i] == s[i + 1]);
        }
        lemma_scan_blank(rest, line + first_lexeme(s).newlines);
        lemma_count_newlines_first(s);
        assert(rest =~= s.drop_first());
        assert(scan(s, line).tokens =~= seq![eof_token(line + count_newlines(s))]);
        assert(scan(s, line).errors =~= Seq::empty());
    }
}

/// A text that is one number literal has two tokens, the number with the
/// value that the literal denotes and the end of input, and no error.
pub proof fn lemma_scan_numeral(s: Seq<char>, line: nat)
    requires
        is_numeral(s),
    ensures
        scan(s, line) == (Scanned {
            tokens: seq![
                TokenView {
                    token_type: TokenType::Number,
                    lexeme: s,
                    literal: LiteralView::Number(decimal_of(s)),
                    line,
                },
                eof_token(line),
            ],
            errors: Seq::empty(),
        }),
{
    assert(first_lexeme(s) == number_lexeme(s));
    assert(s.take(s.len() as int) =~= s);
    let rest = s.skip(s.len() as int);
    assert(rest.len() == 0);
    assert(scan(rest, line).tokens =~= seq![eof_token(line)]);
    assert(scan(s, line).tokens =~= seq![
        TokenView {
            token_type: TokenType::Number,
            lexeme: s,
            literal: LiteralView::Number(decimal_of(s)),
            line,
        },
        eof_token(line),
    ]);
    assert(scan(s, line).errors =~= Seq::empty());
}

/// From an opening quote that no quote follows, a text has no token but
/// the end of input and exactly one error, the unterminated string, both on
/// the line that the line feeds after the quote lead to.
pub proof fn lemma_scan_unterminated_string(s: Seq<char>, line: nat)
    requires
        s.len() > 0,
        s[0] == '"',
        forall|i: int| 1 <= i < s.len() ==> s[i] != '"',
    ensures
        scan(s, line) == (Scanned {
            tokens: seq![eof_token(line + count_newlines(s.drop_first()))],
            errors: seq![
                lexical_error(line + count_newlines(s.drop_first()), unterminated_string()),
            ],
        }),
{
    let body = s.drop_first();
    assert forall|i: int| 0 <= i < body.len() implies not_quote()(#[trigger] body[i]) by {
        assert(body[i] == s[i + 1]);
    }
    lemma_prefix_len_is(body, not_quote(), body.len() as int);
    assert(s.subrange(1, 1 + body.len() as int) =~= body);
    assert(first_lexeme(s) == string_lexeme(s));
    let at = line + count_newlines(body);
    let lx = first_lexeme(s);
    assert(prefix_len(body, not_quote()) == body.len());
    assert(lx.len == s.len());
    assert(lx.newlines == count_newlines(body));
    let rest = s.skip(lx.len as int);
    assert(rest.len() == 0);
    assert(scan(rest, at).tokens =~= seq![eof_token(at)]);
    assert(scan(s, line).tokens =~= seq![eof_token(at)]);
    assert(scan(s, line).errors =~= seq![lexical_error(at, unterminated_string())]);
}

/// No text has more than one unterminated string, and nothing is reported
/// after it: a report with that message is the last one.
pub proof fn lemma_unterminated_string_is_last(s: Seq<char>, line: nat)
    ensures
        forall|i: int|
            0 <= i < scan(s, line).errors.len() && (#[trigger] scan(s, line).errors[i]).message
                == unterminated_string() ==> i == scan(s, line).errors.len() - 1,
    decreases s.len(),
{
    if s.len() > 0 {
        let lx = first_lexeme(s);
        if 0 < lx.len <= s.len() {
            let rest = s.skip(lx.len as int);
            lemma_unterminated_string_is_last(rest, line + lx.newlines);
            reveal_strlit("Unterminated string.");
            reveal_strlit("Unexpected character");
            assert(unexpected_character()[2] != unterminated_string()[2]);
            if lx.lexed is Error && lx.lexed->message == unterminated_string() {
                assert(first_lexeme(s) == string_lexeme(s));
                assert(rest.len() == 0);
                assert(scan(rest, line + lx.newlines).errors.len() == 0);
            }
        }
    }
}

/// A line comment gives no token and no error and counts no line: a text
/// that starts with one, which ends before position `n`, scans as the text
/// from `n` on does. Where a line feed ends the comment, that line feed is
/// what moves scanning to the next line.
pub proof fn lemma_scan_comment(s: Seq<char>, line: nat, n: int)
    requires
        2 <= n <= s.len(),
        s[0] == '/',
        s[1] == '/',
        forall|i: int| 2 <= i < n ==> s[i] != '\n',
        n < s.len() ==> s[n] == '\n',
    ensures
        scan(s, line) == scan(s.skip(n), line),
        n < s.len() ==> scan(s, line) == scan(s.skip(n + 1), line + 1),
{
    let body = s.skip(2);
    assert forall|i: int| 0 <= i < n - 2 implies not_newline()(#[trigger] body[i]) by {
        assert(body[i] == s[i + 2]);
    }
    lemma_prefix_len_is(body, not_newline(), n - 2);
    assert(first_lexeme(s) == comment_lexeme(s));
    let rest = s.skip(n);
    assert(scan(s, line).tokens =~= scan(rest, line).tokens);
    assert(scan(s, line).errors =~= scan(rest, line).errors);
    if n < s.len() {
        assert(rest[0] == '\n');
        assert(first_lexeme(rest) == blank(1, 1));
        assert(rest.skip(1) =~= s.skip(n + 1));
        assert(scan(rest, line).tokens =~= scan(s.skip(n + 1), line + 1).tokens);
        assert(scan(rest, line).errors =~= scan(s.skip(n + 1), line + 1).errors);
    }
}

/// How an operator is written: the lexeme of every token of its category.
/// Empty for a category that is no operator.
pub open spec fn operator_lexeme(t: TokenType) -> Seq<char> {
    match t {
        TokenType::Minus => "-"@,
        TokenType::Plus => "+"@,
        TokenType::Slash => "/"@,
        TokenType::Star => "*"@,
        TokenType::Bang => "!"@,
        TokenType::BangEqual => "!="@,
        TokenType::EqualEqual => "=="@,
        TokenType::Greater => ">"@,
        TokenType::GreaterEqual => ">="@,
        TokenType::Less => "<"@,
        TokenType::LessEqual => "<="@,
        _ => Seq::empty(),
    }
}

/// Whether a token is what the scanner makes of its category: an operator
/// has the lexeme of its category; a number carries a well-formed decimal;
/// a string carries a text without a double quote.
pub open spec fn fits(token: TokenView) -> bool {
    &&& operator_lexeme(token.token_type).len() > 0 ==> token.lexeme == operator_lexeme(
        token.token_type,
    )
    &&& token.token_type == TokenType::Number ==> token.literal is Number && token.literal.wf()
    &&& token.token_type == TokenType::String ==> token.literal is String && forall|i: int|
        0 <= i < token.literal->String_0.len() ==> token.literal->String_0[i] != '"'
}

/// The token that a lexeme of a non-empty text gives fits its category.
pub proof fn lemma_first_lexeme_fits(s: Seq<char>, line: nat)
    requires
        s.len() > 0,
    ensures
        forall|i: int|
            0 <= i < emitted(
                first_lexeme(s).lexed,
                s.take(first_lexeme(s).len as int),
                line,
            ).len() ==> fits(
                #[trigger] emitted(
                    first_lexeme(s).lexed,
                    s.take(first_lexeme(s).len as int),
                    line,
                )[i],
            ),
{
    let lx = first_lexeme(s);
    let text = s.take(lx.len as int);
    reveal_strlit("-");
    reveal_strlit("+");
    reveal_strlit("/");
    reveal_strlit("*");
    reveal_strlit("!");
    reveal_strlit("!=");
    reveal_strlit("==");
    reveal_strlit(">");
    reveal_strlit(">=");
    reveal_strlit("<");
    reveal_strlit("<=");
    if lx.lexed is Token {
        let token = emitted(lx.lexed, text, line)[0];
        let t = token.token_type;
        if s[0] == '"' {
            let body = s.drop_first();
            lemma_prefix_len(body, not_quote());
            let n = prefix_len(body, not_quote()) as int;
            let c = s.subrange(1, 1 + n);
            assert forall|i: int| 0 <= i < c.len() implies c[i] != '"' by {
                assert(c[i] == body[i]);
                assert(not_quote()(body[i]));
            }
        } else if is_digit(s[0]) {
            lemma_numeral_prefix(s);
            lemma_decimal_of_wf(s.take(numeral_len(s) as int));
        } else if is_alpha(s[0]) {
        } else {
            if operator_lexeme(t).len() > 0 {
                assert(text =~= operator_lexeme(t));
            }
        }
        assert(fits(token));
    }
}

/// Every token of a text fits its category.
pub proof fn lemma_scan_tokens_fit(s: Seq<char>, line: nat)
    ensures
        forall|i: int| 0 <= i < scan(s, line).tokens.len() ==> fits(#[trigger] scan(s, line).tokens[i]),
    decreases s.len(),
{
    if s.len() > 0 {
        let lx = first_lexeme(s);
        if 0 < lx.len <= s.len() {
            let at = line + lx.newlines;
            let rest = scan(s.skip(lx.len as int), at);
            let step = emitted(lx.lexed, s.take(lx.len as int), at);
            lemma_scan_tokens_fit(s.skip(lx.len as int), at);
            lemma_first_lexeme_fits(s, at);
            assert forall|i: int| 0 <= i < scan(s, line).tokens.len() implies fits(
                #[trigger] scan(s, line).tokens[i],
            ) by {
                if i < step.len() {
                    assert(scan(s, line).tokens[i] == step[i]);
                } else {
                    assert(scan(s, line).tokens[i] == rest.tokens[i - step.len()]);
                }
            }
        }
    }
}

/// A text with a string token holds a double quote.
pub proof fn lemma_string_token_has_quote(s: Seq<char>, line: nat, i: int)
    requires
        0 <= i < scan(s, line).tokens.len(),
        scan(s, line).tokens[i].token_type == TokenType::String,
    ensures
        exists|j: int| 0 <= j < s.len() && s[j] == '"',
    decreases s.len(),
{
    if s.len() > 0 {
        let lx = first_lexeme(s);
        if 0 < lx.len <= s.len() {
            if s[0] != '"' {
                let rest = s.skip(lx.len as int);
                let at = line + lx.newlines;
                let step = emitted(lx.lexed, s.take(lx.len as int), at);
                assert(step.len() > 0 ==> step[0].token_type != TokenType::String);
                let k = i - step.len();
                assert(scan(s, line).tokens[i] == scan(rest, at).tokens[k]);
                lemma_string_token_has_quote(rest, at, k);
                let j = choose|j: int| 0 <= j < rest.len() && rest[j] == '"';
                assert(s[j + lx.len] == '"');
            } else {
                assert(s[0] == '"');
            }
        }
    }
}

/// Whether a lexeme of `s` starts at position `p`, or `s` ends there after
/// a lexeme: scanning `s` from its start comes to stand at `p`.
pub open spec fn is_lexeme_start(s: Seq<char>, p: nat) -> bool
    decreases s.len(),
{
    p == 0 || {
        &&& s.len() > 0
        &&& 0 < first_lexeme(s).len <= p
        &&& first_lexeme(s).len <= s.len()
        &&& is_lexeme_start(s.skip(first_lexeme(s).len as int), (p - first_lexeme(s).len) as nat)
    }
}

/// What scanning has made of a text when it comes to stand at a position:
/// the tokens and errors of the lexemes before it, and the line it is on.
pub struct Progress {
    pub tokens: Seq<TokenView>,
    pub errors: Seq<DiagnosticView>,
    pub line: nat,
}

/// What scanning `s` from line `line` has made when it comes to stand at
/// the lexeme start `p`.
pub open spec fn scan_until(s: Seq<char>, line: nat, p: nat) -> Progress
    decreases s.len(),
{
    let lx = first_lexeme(s);
    let at = line + lx.newlines;
    if p > 0 && s.len() > 0 && 0 < lx.len <= p && lx.len <= s.len() {
        let rest = scan_until(s.skip(lx.len as int), at, (p - lx.len) as nat);
        Progress {
            tokens: emitted(lx.lexed, s.take(lx.len as int), at) + rest.tokens,
            errors: reported(lx.lexed, at) + rest.errors,
            line: rest.line,
        }
    } else {
        Progress { tokens: Seq::empty(), errors: Seq::empty(), line }
    }
}

/// Scanning can be taken up at any lexeme start: a text gives what its
/// lexemes before the position give, then what the text from the position
/// on gives, scanned from the line that was reached.
pub proof fn lemma_scan_splits(s: Seq<char>, line: nat, p: nat)
    requires
        p <= s.len(),
        is_lexeme_start(s, p),
    ensures
        scan(s, line).tokens == scan_until(s, line, p).tokens + scan(
            s.skip(p as int),
            scan_until(s, line, p).line,
        ).tokens,
        scan(s, line).errors == scan_until(s, line, p).errors + scan(
            s.skip(p as int),
            scan_until(s, line, p).line,
        ).errors,
    decreases s.len(),
{
    if p == 0 {
        assert(s.skip(0) =~= s);
        assert(Seq::<TokenView>::empty() + scan(s, line).tokens =~= scan(s, line).tokens);
        assert(Seq::<DiagnosticView>::empty() + scan(s, line).errors =~= scan(s, line).errors);
    } else {
        let lx = first_lexeme(s);
        let at = line + lx.newlines;
        let tail = s.skip(lx.len as int);
        let q = (p - lx.len) as nat;
        lemma_scan_splits(tail, at, q);
        assert(tail.skip(q as int) =~= s.skip(p as int));
        let before = scan_until(tail, at, q);
        let after = scan(s.skip(p as int), before.line);
        let step = emitted(lx.lexed, s.take(lx.len as int), at);
        assert(step + (before.tokens + after.tokens) =~= (step + before.tokens) + after.tokens);
        assert(reported(lx.lexed, at) + (before.errors + after.errors) =~= (reported(lx.lexed, at)
            + before.errors) + after.errors);
    }
}

/// A text with an unterminated string has exactly one error for it and no
/// token: where scanning comes to stand at a double quote that no double
/// quote follows, the text gives the tokens and errors of what is before
/// the quote, then that one error and the end of input, both on the line
/// that the line feeds after the quote lead to.
pub proof fn lemma_unterminated_string(s: Seq<char>, line: nat, p: nat)
    requires
        p < s.len(),
        is_lexeme_start(s, p),
        s[p as int] == '"',
        forall|i: int| p < i < s.len() ==> s[i] != '"',
    ensures
        ({
            let before = scan_until(s, line, p);
            let last = before.line + count_newlines(s.skip(p as int + 1));
            &&& scan(s, line).tokens == before.tokens.push(eof_token(last))
            &&& scan(s, line).errors == before.errors.push(
                lexical_error(last, unterminated_string()),
            )
        }),
{
    let before = scan_until(s, line, p);
    let from = s.skip(p as int);
    lemma_scan_splits(s, line, p);
    assert forall|i: int| 1 <= i < from.len() implies from[i] != '"' by {
        assert(from[i] == s[p + i]);
    }
    lemma_scan_unterminated_string(from, before.line);
    assert(from.drop_first() =~= s.skip(p as int + 1));
    let last = before.line + count_newlines(s.skip(p as int + 1));
    assert(before.tokens + seq![eof_token(last)] =~= before.tokens.push(eof_token(last)));
    assert(before.errors + seq![lexical_error(last, unterminated_string())]
        =~= before.errors.push(lexical_error(last, unterminated_string())));
}

/// A line comment gives no token and no error and counts no line: where
/// scanning comes to stand at two slashes, and no line feed is between them
/// and position `n`, where a line feed or the end of the text is, the text
/// gives what is before the comment and what is from `n` on, scanned from
/// the line of the comment.
pub proof fn lemma_line_comment(s: Seq<char>, line: nat, p: nat, n: nat)
    requires
        p + 2 <= n <= s.len(),
        is_lexeme_start(s, p),
        s[p as int] == '/',
        s[p as int + 1] == '/',
        forall|i: int| p + 2 <= i < n ==> s[i] != '\n',
        n < s.len() ==> s[n as int] == '\n',
    ensures
        ({
            let before = scan_until(s, line, p);
            let after = scan(s.skip(n as int), before.line);
            &&& scan(s, line).tokens == before.tokens + after.tokens
            &&& scan(s, line).errors == before.errors + after.errors
        }),
{
    let before = scan_until(s, line, p);
    let from = s.skip(p as int);
    lemma_scan_splits(s, line, p);
    assert forall|i: int| 2 <= i < n - p implies from[i] != '\n' by {
        assert(from[i] == s[p + i]);
    }
    lemma_scan_comment(from, before.line, n - p);
    assert(from.skip(n - p) =~= s.skip(n as int));
}

/// A number literal anywhere in a text is one number token with the value
/// that the literal denotes: where scanning comes to stand at a digit, the
/// text gives what is before the digit, then the number token of the
/// literal that starts there, then what the text after the literal gives.
pub proof fn lemma_number_token(s: Seq<char>, line: nat, p: nat)
    requires
        p < s.len(),
        is_lexeme_start(s, p),
        is_digit(s[p as int]),
    ensures
        ({
            let before = scan_until(s, line, p);
            let n = numeral_len(s.skip(p as int));
            let text = s.subrange(p as int, p as int + n as int);
            let after = scan(s.skip(p as int + n as int), before.line);
            &&& p + n <= s.len()
            &&& is_numeral(text)
            &&& scan(s, line).tokens == before.tokens.push(
                TokenView {
                    token_type: TokenType::Number,
                    lexeme: text,
                    literal: LiteralView::Number(decimal_of(text)),
                    line: before.line,
                },
            ) + after.tokens
            &&& scan(s, line).errors == before.errors + after.errors
        }),
{
    let before = scan_until(s, line, p);
    let from = s.skip(p as int);
    let n = numeral_len(from);
    lemma_scan_splits(s, line, p);
    lemma_numeral_prefix(from);
    assert(first_lexeme(from) == number_lexeme(from));
    assert(from.take(n as int) =~= s.subrange(p as int, p as int + n as int));
    assert(from.skip(n as int) =~= s.skip(p as int + n as int));
    let text = s.subrange(p as int, p as int + n as int);
    let after = scan(s.skip(p as int + n as int), before.line);
    let token = TokenView {
        token_type: TokenType::Number,
        lexeme: text,
        literal: LiteralView::Number(decimal_of(text)),
        line: before.line,
    };
    assert(scan(from, before.line).tokens == seq![token] + after.tokens);
    assert(before.tokens + (seq![token] + after.tokens) =~= before.tokens.push(token)
        + after.tokens);
    assert(scan(from, before.line).errors =~= after.errors);
}

} // verus!
