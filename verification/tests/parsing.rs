use lox_rs::ast_printer::AstPrinter;
use lox_rs::error::Error;
use lox_rs::expr::Expr;
use lox_rs::literal::Literal;
use lox_rs::parser::Parser;
use lox_rs::scanner::Scanner;
use lox_rs::token::Token;
use lox_rs::token_type::TokenType;
use lox_rs::{Diagnostic, Lox};

fn tokens_of(source: &str, lox: &mut Lox) -> Vec<Token> {
    let mut scanner = Scanner::new(String::from(source));
    scanner.scan_tokens(lox)
}

fn parse_source(source: &str) -> (Result<Expr, Error>, Lox) {
    let mut lox = Lox::new();
    let tokens = tokens_of(source, &mut lox);
    assert!(!tokens.is_empty() && tokens[tokens.len() - 1].token_type == TokenType::Eof);
    let mut parser = Parser::new(tokens);
    let parsed = parser.parse(&mut lox);
    (parsed, lox)
}

fn print_source(source: &str) -> String {
    let (parsed, lox) = parse_source(source);
    assert!(!lox.had_error());
    AstPrinter.print(parsed.unwrap()).unwrap()
}

fn syntax(line: usize, location: &str, message: &str) -> Diagnostic {
    Diagnostic { line, location: String::from(location), message: String::from(message) }
}

#[test]
fn multiplication_binds_tighter_than_addition() {
    assert_eq!(print_source("1 + 2 * 3"), "(+ 1 (* 2 3))");
}

#[test]
fn subtraction_associates_to_the_left() {
    assert_eq!(print_source("1 - 2 - 3"), "(- (- 1 2) 3)");
}

#[test]
fn grouping_overrides_precedence() {
    assert_eq!(print_source("(1 + 2) * 3"), "(* (group (+ 1 2)) 3)");
}

#[test]
fn unary_and_grouping_together() {
    assert_eq!(print_source("-123 * (45.67)"), "(* (- 123) (group 45.67))");
}

#[test]
fn all_levels_of_precedence() {
    assert_eq!(
        print_source("1 == 2 != 3 < 4 + 5 * -6"),
        "(!= (== 1 2) (< 3 (+ 4 (* 5 (- 6)))))"
    );
}

#[test]
fn comparison_operators_associate_to_the_left() {
    assert_eq!(print_source("1 < 2 <= 3 > 4 >= 5"), "(>= (> (<= (< 1 2) 3) 4) 5)");
}

#[test]
fn division_and_multiplication_associate_to_the_left() {
    assert_eq!(print_source("8 / 4 * 2 / 1"), "(/ (* (/ 8 4) 2) 1)");
}

#[test]
fn unary_operators_nest_to_the_right() {
    assert_eq!(print_source("!!-true"), "(! (! (- true)))");
}

#[test]
fn minus_after_an_operand_is_binary() {
    assert_eq!(print_source("1 - -2"), "(- 1 (- 2))");
}

#[test]
fn literals_print_in_canonical_text() {
    assert_eq!(print_source("nil"), "null");
    assert_eq!(print_source("true"), "true");
    assert_eq!(print_source("false"), "false");
    assert_eq!(print_source("\"some text\""), "some text");
    assert_eq!(print_source("0012.3400"), "12.34");
    assert_eq!(print_source("0.0"), "0");
}

#[test]
fn nested_groupings() {
    assert_eq!(print_source("((1))"), "(group (group 1))");
}

#[test]
fn tokens_after_the_expression_are_left_unread() {
    assert_eq!(print_source("1 2"), "1");
}

#[test]
fn operators_keep_their_token() {
    let (parsed, _) = parse_source("1\n+ 2");
    match parsed.unwrap() {
        Expr::Binary { left, operator, right } => {
            assert_eq!(operator, Token::from(TokenType::Plus, String::from("+"), Literal::Empty, 2));
            assert!(matches!(*left, Expr::Literal { .. }));
            assert!(matches!(*right, Expr::Literal { .. }));
        }
        _ => panic!("a binary expression was expected"),
    }
}

#[test]
fn unterminated_group_is_a_syntax_error_and_no_tree() {
    let (parsed, lox) = parse_source("(1 + 2");
    assert!(matches!(parsed, Err(Error::Parser)));
    assert_eq!(lox.diagnostics(), &vec![syntax(1, "at end", "Expect ')' after expression.")]);
    assert!(lox.had_error());
}

#[test]
fn wrong_token_in_place_of_the_closing_parenthesis() {
    let (parsed, lox) = parse_source("(1 2)");
    assert!(matches!(parsed, Err(Error::Parser)));
    assert_eq!(lox.diagnostics(), &vec![syntax(1, "at '2'", "Expect ')' after expression.")]);
}

#[test]
fn empty_input_is_a_syntax_error_at_end() {
    let (parsed, lox) = parse_source("");
    assert!(matches!(parsed, Err(Error::Parser)));
    assert_eq!(lox.diagnostics(), &vec![syntax(1, "at end", "Expected expression.")]);
}

#[test]
fn missing_right_operand_is_a_syntax_error() {
    let (parsed, lox) = parse_source("1 +\n");
    assert!(matches!(parsed, Err(Error::Parser)));
    assert_eq!(lox.diagnostics(), &vec![syntax(2, "at end", "Expected expression.")]);
}

#[test]
fn token_that_starts_no_expression_is_named_in_the_error() {
    let (parsed, lox) = parse_source("1 * / 2");
    assert!(matches!(parsed, Err(Error::Parser)));
    assert_eq!(lox.diagnostics(), &vec![syntax(1, "at '/'", "Expected expression.")]);
}

#[test]
fn identifier_is_no_expression() {
    let (parsed, lox) = parse_source("x");
    assert!(matches!(parsed, Err(Error::Parser)));
    assert_eq!(lox.diagnostics(), &vec![syntax(1, "at 'x'", "Expected expression.")]);
}

#[test]
fn lexical_errors_do_not_stop_the_parser() {
    let (parsed, lox) = parse_source("1 @ + 2");
    assert_eq!(AstPrinter.print(parsed.unwrap()).unwrap(), "(+ 1 2)");
    assert_eq!(lox.diagnostics().len(), 1);
    assert_eq!(lox.diagnostics()[0].message, "Unexpected character");
}

#[test]
fn same_tokens_give_the_same_tree() {
    let (first, _) = parse_source("(1 + 2) * -3 == 4");
    let (second, _) = parse_source("(1 + 2) * -3 == 4");
    assert_eq!(
        AstPrinter.print(first.unwrap()).unwrap(),
        AstPrinter.print(second.unwrap()).unwrap()
    );
}

#[test]
fn synchronize_stops_after_a_semicolon() {
    let mut lox = Lox::new();
    let tokens = tokens_of("+ 1 ; 2", &mut lox);
    let mut parser = Parser::new(tokens);
    assert!(parser.parse(&mut lox).is_err());
    parser.synchronize();
    let next = parser.parse(&mut lox).unwrap();
    assert_eq!(AstPrinter.print(next).unwrap(), "2");
}

#[test]
fn synchronize_stops_before_a_statement_keyword() {
    let mut lox = Lox::new();
    let tokens = tokens_of("+ 1 2 print 3", &mut lox);
    let mut parser = Parser::new(tokens);
    assert!(parser.parse(&mut lox).is_err());
    parser.synchronize();
    assert!(parser.parse(&mut lox).is_err());
    assert_eq!(
        lox.diagnostics(),
        &vec![
            syntax(1, "at '+'", "Expected expression."),
            syntax(1, "at 'print'", "Expected expression."),
        ]
    );
}

#[test]
fn synchronize_at_the_end_of_input_stays() {
    let mut lox = Lox::new();
    let tokens = tokens_of("", &mut lox);
    let mut parser = Parser::new(tokens);
    parser.synchronize();
    assert!(parser.parse(&mut lox).is_err());
    assert_eq!(lox.diagnostics(), &vec![syntax(1, "at end", "Expected expression.")]);
}

#[test]
fn synchronize_runs_to_the_end_without_a_boundary() {
    let mut lox = Lox::new();
    let tokens = tokens_of("+ 1 2 3", &mut lox);
    let mut parser = Parser::new(tokens);
    assert!(parser.parse(&mut lox).is_err());
    parser.synchronize();
    assert!(parser.parse(&mut lox).is_err());
    assert_eq!(lox.diagnostics()[1], syntax(1, "at end", "Expected expression."));
}
