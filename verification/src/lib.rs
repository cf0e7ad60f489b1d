//! The front end of a small expression language: a scanner that turns source
//! text into tokens, a recursive-descent parser that turns tokens into a
//! syntax tree, and a printer that writes a tree in prefix form.

use crate::ast_printer::{printed, AstPrinter};
use crate::grammar::{expression, Parsed};
use crate::lexical::{lemma_scan_one_eof, scan_source};
use crate::parser::Parser;
use crate::scanner::Scanner;
use crate::token::{token_views, Token, TokenView};
use crate::token_type::TokenType;
use vstd::prelude::*;
use vstd::string::StringExecFns;

pub mod ast_printer;
pub mod canonical;
pub mod chars;
pub mod decimal;
pub mod error;
pub mod expr;
pub mod grammar;
pub mod lexical;
pub mod literal;
pub mod magnitude;
pub mod parser;
pub mod scanner;
pub mod token;
pub mod token_type;

verus! {

/// One reported error: the line it was found on, where on that line (empty
/// for a lexical error), and what is wrong.
#[derive(Debug, PartialEq, Eq)]
pub struct Diagnostic {
    pub line: usize,
    pub location: String,
    pub message: String,
}

/// A `Diagnostic`, with its texts as sequences of characters.
pub struct DiagnosticView {
    pub line: nat,
    pub location: Seq<char>,
    pub message: Seq<char>,
}

impl View for Diagnostic {
    type V = DiagnosticView;

    open spec fn view(&self) -> DiagnosticView {
        DiagnosticView { line: self.line as nat, location: self.location@, message: self.message@ }
    }
}

/// Where a syntax error is: `at end` for the end-of-input token, otherwise
/// `at` and the token's lexeme between single quotes.
pub open spec fn token_location(token: TokenView) -> Seq<char> {
    if token.token_type == TokenType::Eof {
        "at end"@
    } else {
        "at '"@ + token.lexeme + "'"@
    }
}

/// The diagnostic that a syntax error at `token` gives.
pub open spec fn syntax_error(token: TokenView, message: Seq<char>) -> DiagnosticView {
    DiagnosticView { line: token.line, location: token_location(token), message }
}

/// The diagnostic that a lexical error on `line` gives.
pub open spec fn lexical_error(line: nat, message: Seq<char>) -> DiagnosticView {
    DiagnosticView { line, location: Seq::empty(), message }
}

/// The syntax error, if any, that parsing the tokens `ts` gives.
pub open spec fn syntax_reports(ts: Seq<TokenView>) -> Seq<DiagnosticView> {
    match expression(ts, 0) {
        Parsed::Tree { expr, next } => Seq::empty(),
        Parsed::Failure { at, message } => seq![syntax_error(ts[at as int], message)],
    }
}

/// All that scanning and parsing `source` reports: its lexical errors, then
/// its syntax error if it has one.
pub open spec fn run_reports(source: Seq<char>) -> Seq<DiagnosticView> {
    scan_source(source).errors + syntax_reports(scan_source(source).tokens)
}

/// The printed form of the expression that `source` holds, where it has
/// neither a lexical nor a syntax error.
pub open spec fn run_output(source: Seq<char>) -> Option<Seq<char>> {
    match expression(scan_source(source).tokens, 0) {
        Parsed::Tree { expr, next } => if scan_source(source).errors.len() == 0 {
            Some(printed(expr))
        } else {
            None
        },
        Parsed::Failure { at, message } => None,
    }
}

/// The collector of diagnostics: the scanner and the parser report every
/// error to it, and it keeps them in the order in which they came.
pub struct Lox {
    diagnostics: Vec<Diagnostic>,
}

impl View for Lox {
    type V = Seq<DiagnosticView>;

    closed spec fn view(&self) -> Seq<DiagnosticView> {
        self.diagnostics@.map_values(|d: Diagnostic| d@)
    }
}

impl Lox {
    /// A collector that holds no diagnostic yet.
    pub fn new() -> (lox: Lox)
        ensures
            lox@ == Seq::<DiagnosticView>::empty(),
    {
        let lox = Lox { diagnostics: Vec::new() };
        assert(lox@ =~= Seq::<DiagnosticView>::empty());
        lox
    }

    /// Reports a lexical error on `line`.
    pub fn error(&mut self, line: usize, message: String)
        ensures
            final(self)@ == old(self)@.push(lexical_error(line as nat, message@)),
    {
        self.report(line, String::new(), message);
    }

    /// Reports an error on `line`, at `location` on that line.
    pub fn report(&mut self, line: usize, location: String, message: String)
        ensures
            final(self)@ == old(self)@.push(
                DiagnosticView { line: line as nat, location: location@, message: message@ },
            ),
    {
        self.diagnostics.push(Diagnostic { line, location, message });
        assert(self@ =~= old(self)@.push(
            DiagnosticView { line: line as nat, location: location@, message: message@ },
        ));
    }

    /// Reports a syntax error at `token`.
    pub fn parse_error(&mut self, token: Token, message: String)
        ensures
            final(self)@ == old(self)@.push(syntax_error(token@, message@)),
    {
        if token.token_type == TokenType::Eof {
            self.report(token.line, String::from_str("at end"), message);
        } else {
            let mut location = String::from_str("at '");
            location.append(token.lexeme.as_str());
            location.append("'");
            self.report(token.line, location, message);
        }
    }

    /// Scans and parses `source`, reporting every error in it. Returns the
    /// printed form of the expression if no error has ever been reported.
    pub fn run(&mut self, source: String) -> (output: Option<String>)
        requires
            source@.len() < usize::MAX,
        ensures
            final(self)@ == old(self)@ + run_reports(source@),
            match output {
                Some(text) => old(self)@.len() == 0 && run_output(source@) == Some(text@),
                None => old(self)@.len() > 0 || run_output(source@) is None,
            },
    {
        let mut scanner: Scanner = Scanner::new(source);
        let tokens: Vec<Token> = scanner.scan_tokens(self);
        proof {
            lemma_scan_one_eof(source@, 1);
            assert(token_views(tokens@) =~= scan_source(source@).tokens);
        }
        let mut parser: Parser = Parser::new(tokens);
        let parsed = parser.parse(self);
        proof {
            assert(self@ =~= old(self)@ + run_reports(source@));
        }
        let expression = match parsed {
            Ok(expression) => expression,
            Err(_) => {
                return None;
            },
        };
        if self.had_error() {
            return None;
        }
        let mut ast_printer = AstPrinter;
        match ast_printer.print(expression) {
            Ok(text) => Some(text),
            Err(_) => None,
        }
    }

    /// Whether any error has been reported.
    pub fn had_error(&self) -> (r: bool)
        ensures
            r == (self@.len() > 0),
    {
        self.diagnostics.len() > 0
    }

    /// The diagnostics reported so far, oldest first.
    pub fn diagnostics(&self) -> (r: &Vec<Diagnostic>)
        ensures
            r@.map_values(|d: Diagnostic| d@) == self@,
    {
        &self.diagnostics
    }
}

} // verus!
