//! The scanner: one pass over the source text, from left to right, that
//! gives the tokens and reports the lexical errors.

use crate::chars::{
    chars_of, count_newlines, digit, digits, is_alpha, is_alpha_numeric, is_digit,
    lemma_prefix_len_is, not_newline, not_quote, prefix_len, string_of, word_chars,
};
use crate::decimal::{decimal_of, numeral_len, Decimal};
use crate::lexical::{emitted, first_lexeme, keyword, reported, scan, unterminated_string};
use crate::literal::{Literal, LiteralView};
use crate::token::{token_views, Token, TokenView};
use crate::token_type::TokenType;
use crate::{lexical_error, Lox};
use vstd::prelude::*;
use vstd::string::{StrSliceExecFns, StringExecFns};

verus! {

/// The views of a sequence of tokens with one more token at its end.
pub proof fn lemma_token_views_push(tokens: Seq<Token>, token: Token)
    ensures
        token_views(tokens.push(token)) == token_views(tokens).push(token@),
{
    assert(token_views(tokens.push(token)) =~= token_views(tokens).push(token@));
}

/// A copy of `tokens`.
pub fn clone_tokens(tokens: &Vec<Token>) -> (copy: Vec<Token>)
    ensures
        token_views(copy@) == token_views(tokens@),
{
    let mut copy: Vec<Token> = Vec::new();
    let mut i: usize = 0;
    while i < tokens.len()
        invariant
            i <= tokens.len(),
            copy.len() == i,
            forall|j: int| 0 <= j < i ==> (#[trigger] copy@[j])@ == tokens@[j]@,
        decreases tokens.len() - i,
    {
        copy.push(tokens[i].clone());
        i += 1;
    }
    assert(token_views(copy@) =~= token_views(tokens@));
    copy
}

/// Whether `chars[from..to]` spells `word`.
fn spells(chars: &Vec<char>, from: usize, to: usize, word: &str) -> (r: bool)
    requires
        from <= to <= chars.len(),
    ensures
        r == (chars@.subrange(from as int, to as int) == word@),
{
    let n = word.unicode_len();
    if to - from != n {
        return false;
    }
    let mut i: usize = 0;
    while i < n
        invariant
            from <= to <= chars.len(),
            n == word@.len(),
            to - from == n,
            i <= n,
            forall|j: int| 0 <= j < i ==> chars@[from + j] == word@[j],
        decreases n - i,
    {
        if chars[from + i] != word.get_char(i) {
            assert(chars@.subrange(from as int, to as int)[i as int] != word@[i as int]);
            return false;
        }
        i += 1;
    }
    assert(chars@.subrange(from as int, to as int) =~= word@);
    true
}

/// The keyword that `chars[from..to]` spells, if it spells one.
fn keyword_of(chars: &Vec<char>, from: usize, to: usize) -> (r: Option<TokenType>)
    requires
        from <= to <= chars.len(),
    ensures
        r == keyword(chars@.subrange(from as int, to as int)),
{
    if spells(chars, from, to, "and") {
        Some(TokenType::And)
    } else if spells(chars, from, to, "class") {
        Some(TokenType::Class)
    } else if spells(chars, from, to, "else") {
        Some(TokenType::Else)
    } else if spells(chars, from, to, "false") {
        Some(TokenType::False)
    } else if spells(chars, from, to, "for") {
        Some(TokenType::For)
    } else if spells(chars, from, to, "fun") {
        Some(TokenType::Fun)
    } else if spells(chars, from, to, "if") {
        Some(TokenType::If)
    } else if spells(chars, from, to, "nil") {
        Some(TokenType::Nil)
    } else if spells(chars, from, to, "or") {
        Some(TokenType::Or)
    } else if spells(chars, from, to, "print") {
        Some(TokenType::Print)
    } else if spells(chars, from, to, "return") {
        Some(TokenType::Return)
    } else if spells(chars, from, to, "super") {
        Some(TokenType::Super)
    } else if spells(chars, from, to, "this") {
        Some(TokenType::This)
    } else if spells(chars, from, to, "true") {
        Some(TokenType::True)
    } else if spells(chars, from, to, "var") {
        Some(TokenType::Var)
    } else if spells(chars, from, to, "while") {
        Some(TokenType::While)
    } else {
        None
    }
}

/// A scanner over one source text. It keeps the tokens found so far, the
/// start of the lexeme being read, the position of the next character, and
/// the line that character is on.
pub struct Scanner {
    source: Vec<char>,
    tokens: Vec<Token>,
    start: usize,
    current: usize,
    line: usize,
}

impl Scanner {
    /// The cursors are in order and inside the text, and the line counter
    /// cannot have run ahead of the characters read.
    pub closed spec fn wf(&self) -> bool {
        &&& self.start <= self.current <= self.source.len() < usize::MAX
        &&& self.line <= self.current + 1
    }

    /// The text not yet read.
    pub closed spec fn pending(&self) -> Seq<char> {
        self.source@.skip(self.current as int)
    }

    /// The tokens found so far.
    pub closed spec fn produced(&self) -> Seq<TokenView> {
        token_views(self.tokens@)
    }

    /// The line of the next character to read.
    pub closed spec fn line(&self) -> nat {
        self.line as nat
    }

    /// The text from the start of the lexeme being read.
    spec fn lexeme_on(&self) -> Seq<char> {
        self.source@.skip(self.start as int)
    }

    /// `other` has the same text and the same tokens as `self`.
    spec fn same_text_and_tokens(&self, other: &Scanner) -> bool {
        self.source == other.source && self.tokens == other.tokens && self.start == other.start
    }

    /// A scanner at the start of `source`, on line 1, with no token yet.
    pub fn new(source: String) -> (scanner: Scanner)
        requires
            source@.len() < usize::MAX,
        ensures
            scanner.wf(),
            scanner.pending() == source@,
            scanner.produced() == Seq::<TokenView>::empty(),
            scanner.line() == 1,
    {
        let chars = chars_of(source.as_str());
        let scanner = Scanner { source: chars, tokens: Vec::new(), start: 0, current: 0, line: 1 };
        assert(scanner.pending() =~= source@);
        assert(scanner.produced() =~= Seq::<TokenView>::empty());
        scanner
    }

    /// Scans the text not yet read to its end, reports its lexical errors to
    /// `lox`, and returns all tokens found, the end-of-input token last.
    pub fn scan_tokens(&mut self, lox: &mut Lox) -> (tokens: Vec<Token>)
        requires
            old(self).wf(),
        ensures
            final(self).wf(),
            token_views(tokens@) == old(self).produced() + scan(
                old(self).pending(),
                old(self).line(),
            ).tokens,
            final(lox)@ == old(lox)@ + scan(old(self).pending(), old(self).line()).errors,
            final(self).produced() == token_views(tokens@),
            final(self).pending() == Seq::<char>::empty(),
            final(self).line() == token_views(tokens@).last().line,
    {
        while !self.is_at_end()
            invariant
                self.wf(),
                self.source == old(self).source,
                token_views(self.tokens@) + scan(self.pending(), self.line()).tokens == old(
                    self,
                ).produced() + scan(old(self).pending(), old(self).line()).tokens,
                lox@ + scan(self.pending(), self.line()).errors == old(lox)@ + scan(
                    old(self).pending(),
                    old(self).line(),
                ).errors,
            decreases self.source.len() - self.current,
        {
            let ghost before = *self;
            let ghost reports = lox@;
            self.start = self.current;
            self.scan_token(lox);
            proof {
                let s = before.pending();
                let lx = first_lexeme(s);
                let at = before.line() + lx.newlines;
                assert(s.skip(lx.len as int) =~= self.pending());
                let rest = scan(self.pending(), at);
                let step = emitted(lx.lexed, s.take(lx.len as int), at);
                assert(scan(s, before.line()).tokens == step + rest.tokens);
                assert(token_views(before.tokens@) + (step + rest.tokens) =~= (token_views(
                    before.tokens@,
                ) + step) + rest.tokens);
                assert(reports + (reported(lx.lexed, at) + rest.errors) =~= (reports + reported(
                    lx.lexed,
                    at,
                )) + rest.errors);
            }
        }
        let ghost found = self.tokens@;
        let ghost errors = scan(self.pending(), self.line()).errors;
        self.tokens.push(Token::from(TokenType::Eof, String::new(), Literal::Empty, self.line));
        proof {
            lemma_token_views_push(found, self.tokens@.last());
            assert(self.pending() =~= Seq::<char>::empty());
            assert(token_views(self.tokens@) =~= token_views(found) + scan(
                self.pending(),
                self.line(),
            ).tokens);
            assert(lox@ + errors =~= lox@);
        }
        clone_tokens(&self.tokens)
    }

    /// Reads one lexeme, which starts at the next character.
    fn scan_token(&mut self, lox: &mut Lox)
        requires
            old(self).wf(),
            old(self).start == old(self).current,
            old(self).current < old(self).source.len(),
        ensures
            final(self).wf(),
            final(self).source == old(self).source,
            final(self).current > old(self).current,
            ({
                let s = old(self).pending();
                let lx = first_lexeme(s);
                &&& final(self).current == old(self).current + lx.len
                &&& final(self).line == old(self).line + lx.newlines
                &&& token_views(final(self).tokens@) == token_views(old(self).tokens@) + emitted(
                    lx.lexed,
                    s.take(lx.len as int),
                    final(self).line as nat,
                )
                &&& final(lox)@ == old(lox)@ + reported(lx.lexed, final(self).line as nat)
            }),
    {
        let ghost s = self.pending();
        let c: char = self.advance();
        assert(s[0] == c);
        assert(s.len() > 1 ==> s[1] == self.source@[self.current as int]);
        if c == '(' {
            self.add_token_helper(TokenType::LeftParen);
        } else if c == ')' {
            self.add_token_helper(TokenType::RightParen);
        } else if c == '{' {
            self.add_token_helper(TokenType::LeftBrace);
        } else if c == '}' {
            self.add_token_helper(TokenType::RightBrace);
        } else if c == ',' {
            self.add_token_helper(TokenType::Comma);
        } else if c == '.' {
            self.add_token_helper(TokenType::Dot);
        } else if c == '-' {
            self.add_token_helper(TokenType::Minus);
        } else if c == '+' {
            self.add_token_helper(TokenType::Plus);
        } else if c == ';' {
            self.add_token_helper(TokenType::Semicolon);
        } else if c == '*' {
            self.add_token_helper(TokenType::Star);
        } else if c == '!' {
            if self.check_next_char('=') {
                self.add_token_helper(TokenType::BangEqual);
            } else {
                self.add_token_helper(TokenType::Bang);
            }
        } else if c == '=' {
            if self.check_next_char('=') {
                self.add_token_helper(TokenType::EqualEqual);
            } else {
                self.add_token_helper(TokenType::Equal);
            }
        } else if c == '<' {
            if self.check_next_char('=') {
                self.add_token_helper(TokenType::LessEqual);
            } else {
                self.add_token_helper(TokenType::Less);
            }
        } else if c == '>' {
            if self.check_next_char('=') {
                self.add_token_helper(TokenType::GreaterEqual);
            } else {
                self.add_token_helper(TokenType::Greater);
            }
        } else if c == '/' {
            if self.check_next_char('/') {
                self.comment();
            } else {
                self.add_token_helper(TokenType::Slash);
            }
        } else if c == ' ' || c == '\r' || c == '\t' {
        } else if c == '\n' {
            self.line += 1;
        } else if c == '"' {
            self.string(lox);
        } else if self.is_digit(c) {
            self.number();
        } else if self.is_alpha(c) {
            self.identifier();
        } else {
            lox.error(self.line, String::from_str("Unexpected character"));
        }
        proof {
            let lx = first_lexeme(s);
            assert(s.take(lx.len as int) =~= self.source@.subrange(
                self.start as int,
                self.current as int,
            ));
            assert(token_views(self.tokens@) =~= token_views(old(self).tokens@) + emitted(
                lx.lexed,
                s.take(lx.len as int),
                self.line as nat,
            ));
            assert(lox@ =~= old(lox)@ + reported(lx.lexed, self.line as nat));
        }
    }

    /// Reads the rest of a line comment, after its two slashes.
    fn comment(&mut self)
        requires
            old(self).wf(),
            old(self).start + 2 == old(self).current,
        ensures
            final(self).wf(),
            final(self).same_text_and_tokens(old(self)),
            final(self).line == old(self).line,
            final(self).current == old(self).start + 2 + prefix_len(
                old(self).lexeme_on().skip(2),
                not_newline(),
            ),
    {
        while self.peek() != '\n' && !self.is_at_end()
            invariant
                self.wf(),
                self.same_text_and_tokens(old(self)),
                self.line == old(self).line,
                self.start + 2 <= self.current,
                forall|j: int| self.start + 2 <= j < self.current ==> self.source@[j] != '\n',
            decreases self.source.len() - self.current,
        {
            self.advance();
        }
        proof {
            let t = self.lexeme_on().skip(2);
            assert(t =~= self.source@.skip(self.start + 2));
            assert forall|j: int| 0 <= j < self.current - self.start - 2 implies not_newline()(
                #[trigger] t[j],
            ) by {
                assert(t[j] == self.source@[self.start + 2 + j]);
            }
            lemma_prefix_len_is(t, not_newline(), self.current - self.start - 2);
        }
    }

    /// Reads the rest of a word, after its first character, and adds the
    /// keyword or identifier that it is.
    fn identifier(&mut self)
        requires
            old(self).wf(),
            old(self).start + 1 == old(self).current,
            is_alpha(old(self).source@[old(self).start as int]),
        ensures
            final(self).wf(),
            final(self).source == old(self).source,
            final(self).start == old(self).start,
            final(self).line == old(self).line,
            ({
                let s = old(self).lexeme_on();
                let n = prefix_len(s, word_chars());
                &&& final(self).current == old(self).start + n
                &&& token_views(final(self).tokens@) == token_views(old(self).tokens@).push(
                    TokenView {
                        token_type: match keyword(s.take(n as int)) {
                            Some(k) => k,
                            None => TokenType::Identifier,
                        },
                        lexeme: s.take(n as int),
                        literal: LiteralView::Empty,
                        line: old(self).line as nat,
                    },
                )
            }),
    {
        while self.is_alpha_numeric(self.peek())
            invariant
                self.wf(),
                self.same_text_and_tokens(old(self)),
                self.line == old(self).line,
                self.start + 1 <= self.current,
                forall|j: int|
                    self.start <= j < self.current ==> is_alpha_numeric(#[trigger] self.source@[j]),
            decreases self.source.len() - self.current,
        {
            self.advance();
        }
        proof {
            let s = self.lexeme_on();
            assert forall|j: int| 0 <= j < self.current - self.start implies word_chars()(
                #[trigger] s[j],
            ) by {
                assert(s[j] == self.source@[self.start + j]);
            }
            lemma_prefix_len_is(s, word_chars(), self.current - self.start);
            assert(s.take(self.current - self.start) =~= self.source@.subrange(
                self.start as int,
                self.current as int,
            ));
        }
        match keyword_of(&self.source, self.start, self.current) {
            Some(token_type) => self.add_token_helper(token_type),
            None => self.add_token_helper(TokenType::Identifier),
        }
    }

    /// Reads the rest of a number literal, after its first digit, and adds
    /// its token.
    fn number(&mut self)
        requires
            old(self).wf(),
            old(self).start + 1 == old(self).current,
            is_digit(old(self).source@[old(self).start as int]),
        ensures
            final(self).wf(),
            final(self).source == old(self).source,
            final(self).start == old(self).start,
            final(self).line == old(self).line,
            ({
                let s = old(self).lexeme_on();
                let n = numeral_len(s);
                &&& final(self).current == old(self).start + n
                &&& token_views(final(self).tokens@) == token_views(old(self).tokens@).push(
                    TokenView {
                        token_type: TokenType::Number,
                        lexeme: s.take(n as int),
                        literal: LiteralView::Number(decimal_of(s.take(n as int))),
                        line: old(self).line as nat,
                    },
                )
            }),
    {
        let ghost s = self.lexeme_on();
        while self.is_digit(self.peek())
            invariant
                self.wf(),
                self.same_text_and_tokens(old(self)),
                self.line == old(self).line,
                self.start + 1 <= self.current,
                forall|j: int| self.start <= j < self.current ==> is_digit(#[trigger] self.source@[j]),
            decreases self.source.len() - self.current,
        {
            self.advance();
        }
        let dot = self.current;
        proof {
            assert forall|j: int| 0 <= j < dot - self.start implies digits()(#[trigger] s[j]) by {
                assert(s[j] == self.source@[self.start + j]);
            }
            lemma_prefix_len_is(s, digits(), dot - self.start);
        }
        // Look for a fractional part.
        if self.peek() == '.' && self.is_digit(self.peek_next()) {
            self.advance();
            while self.is_digit(self.peek())
                invariant
                    self.wf(),
                    self.same_text_and_tokens(old(self)),
                    self.line == old(self).line,
                    dot + 1 <= self.current,
                    forall|j: int| dot + 1 <= j < self.current ==> is_digit(#[trigger] self.source@[j]),
                decreases self.source.len() - self.current,
            {
                self.advance();
            }
            proof {
                let t = s.skip(dot - self.start + 1);
                assert(t =~= self.source@.skip(dot + 1));
                assert forall|j: int| 0 <= j < self.current - dot - 1 implies digits()(
                    #[trigger] t[j],
                ) by {
                    assert(t[j] == self.source@[dot + 1 + j]);
                }
                lemma_prefix_len_is(t, digits(), self.current - dot - 1);
            }
        }
        proof {
            assert(s.take(self.current - self.start) =~= self.source@.subrange(
                self.start as int,
                self.current as int,
            ));
        }
        let value = Decimal::of_numeral(&self.source, self.start, dot, self.current);
        self.add_token(TokenType::Number, Literal::Number(value));
    }

    /// Reads the rest of a string literal, after its opening quote, and adds
    /// its token; without a closing quote, reports the error instead.
    fn string(&mut self, lox: &mut Lox)
        requires
            old(self).wf(),
            old(self).start + 1 == old(self).current,
        ensures
            final(self).wf(),
            final(self).source == old(self).source,
            final(self).start == old(self).start,
            ({
                let s = old(self).lexeme_on();
                let body = prefix_len(s.drop_first(), not_quote());
                let text = s.subrange(1, 1 + body as int);
                &&& final(self).line == old(self).line + count_newlines(text)
                &&& if 1 + body < s.len() {
                    &&& final(self).current == old(self).start + body + 2
                    &&& token_views(final(self).tokens@) == token_views(old(self).tokens@).push(
                        TokenView {
                            token_type: TokenType::String,
                            lexeme: s.take(body as int + 2),
                            literal: LiteralView::String(text),
                            line: final(self).line as nat,
                        },
                    )
                    &&& final(lox)@ == old(lox)@
                } else {
                    &&& final(self).current == final(self).source.len()
                    &&& final(self).tokens == old(self).tokens
                    &&& final(lox)@ == old(lox)@.push(
                        lexical_error(final(self).line as nat, unterminated_string()),
                    )
                }
            }),
    {
        let ghost s = self.lexeme_on();
        while self.peek() != '"' && !self.is_at_end()
            invariant
                self.wf(),
                self.same_text_and_tokens(old(self)),
                self.start + 1 <= self.current,
                forall|j: int| self.start + 1 <= j < self.current ==> self.source@[j] != '"',
                self.line == old(self).line + count_newlines(
                    self.source@.subrange(self.start + 1, self.current as int),
                ),
            decreases self.source.len() - self.current,
        {
            proof {
                let grown = self.source@.subrange(self.start + 1, self.current + 1);
                assert(grown.drop_last() =~= self.source@.subrange(
                    self.start + 1,
                    self.current as int,
                ));
            }
            if self.peek() == '\n' {
                self.line += 1;
            }
            self.advance();
        }
        proof {
            let t = s.drop_first();
            assert(t =~= self.source@.skip(self.start + 1));
            assert forall|j: int| 0 <= j < self.current - self.start - 1 implies not_quote()(
                #[trigger] t[j],
            ) by {
                assert(t[j] == self.source@[self.start + 1 + j]);
            }
            lemma_prefix_len_is(t, not_quote(), self.current - self.start - 1);
            assert(s.subrange(1, self.current - self.start) =~= self.source@.subrange(
                self.start + 1,
                self.current as int,
            ));
        }
        if self.is_at_end() {
            lox.error(self.line, String::from_str("Unterminated string."));
            return ;
        }
        // The closing quote.
        self.advance();
        // The value is the text between the quotes.
        let value = string_of(&self.source, self.start + 1, self.current - 1);
        proof {
            assert(s.take(self.current - self.start) =~= self.source@.subrange(
                self.start as int,
                self.current as int,
            ));
        }
        self.add_token(TokenType::String, Literal::String(value));
    }

    /// Takes the next character if it is `expected`.
    fn check_next_char(&mut self, expected: char) -> (r: bool)
        requires
            old(self).wf(),
        ensures
            final(self).wf(),
            r == (old(self).current < old(self).source.len() && old(self).source@[old(
                self,
            ).current as int] == expected),
            *final(self) == (Scanner {
                current: if r {
                    (old(self).current + 1) as usize
                } else {
                    old(self).current
                },
                ..*old(self)
            }),
    {
        if self.is_at_end() {
            return false;
        }
        if self.source[self.current] != expected {
            return false;
        }
        self.current += 1;
        true
    }

    /// The next character, or the null character at the end of the text.
    fn peek(&self) -> (c: char)
        ensures
            c == if self.current < self.source.len() {
                self.source@[self.current as int]
            } else {
                '\0'
            },
    {
        if self.is_at_end() {
            '\0'
        } else {
            self.source[self.current]
        }
    }

    /// The character after the next, or the null character past the end.
    fn peek_next(&self) -> (c: char)
        requires
            self.current < usize::MAX,
        ensures
            c == if self.current + 1 < self.source.len() {
                self.source@[self.current + 1]
            } else {
                '\0'
            },
    {
        if self.current + 1 >= self.source.len() {
            '\0'
        } else {
            self.source[self.current + 1]
        }
    }

    /// Whether `c` may start an identifier.
    fn is_alpha(&self, c: char) -> (r: bool)
        ensures
            r == is_alpha(c),
    {
        (c >= 'a' && c <= 'z') || (c >= 'A' && c <= 'Z') || c == '_'
    }

    /// Whether `c` may continue an identifier.
    fn is_alpha_numeric(&self, c: char) -> (r: bool)
        ensures
            r == is_alpha_numeric(c),
    {
        self.is_alpha(c) || self.is_digit(c)
    }

    /// Whether `c` is a decimal digit.
    fn is_digit(&self, c: char) -> (r: bool)
        ensures
            r == is_digit(c),
    {
        digit(c)
    }

    /// Whether all of the text has been read.
    fn is_at_end(&self) -> (r: bool)
        ensures
            r == (self.current >= self.source.len()),
    {
        self.current >= self.source.len()
    }

    /// Takes the next character.
    fn advance(&mut self) -> (c: char)
        requires
            old(self).current < old(self).source.len(),
        ensures
            c == old(self).source@[old(self).current as int],
            *final(self) == (Scanner { current: (old(self).current + 1) as usize, ..*old(self) }),
    {
        let tmp: usize = self.current;
        self.current += 1;
        self.source[tmp]
    }

    /// Adds a token without a value for the lexeme just read.
    fn add_token_helper(&mut self, token_type: TokenType)
        requires
            old(self).start <= old(self).current <= old(self).source.len(),
        ensures
            final(self).source == old(self).source,
            final(self).start == old(self).start,
            final(self).current == old(self).current,
            final(self).line == old(self).line,
            token_views(final(self).tokens@) == token_views(old(self).tokens@).push(
                TokenView {
                    token_type,
                    lexeme: old(self).source@.subrange(
                        old(self).start as int,
                        old(self).current as int,
                    ),
                    literal: LiteralView::Empty,
                    line: old(self).line as nat,
                },
            ),
    {
        self.add_token(token_type, Literal::Empty);
    }

    /// Adds a token for the lexeme just read.
    fn add_token(&mut self, token_type: TokenType, literal: Literal)
        requires
            old(self).start <= old(self).current <= old(self).source.len(),
        ensures
            final(self).source == old(self).source,
            final(self).start == old(self).start,
            final(self).current == old(self).current,
            final(self).line == old(self).line,
            token_views(final(self).tokens@) == token_views(old(self).tokens@).push(
                TokenView {
                    token_type,
                    lexeme: old(self).source@.subrange(
                        old(self).start as int,
                        old(self).current as int,
                    ),
                    literal: literal@,
                    line: old(self).line as nat,
                },
            ),
    {
        let text = string_of(&self.source, self.start, self.current);
        let token = Token::from(token_type, text, literal, self.line);
        proof {
            lemma_token_views_push(self.tokens@, token);
        }
        self.tokens.push(token);
    }
}

} // verus!
