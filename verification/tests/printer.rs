use lox_rs::ast_printer::AstPrinter;
use lox_rs::decimal::Decimal;
use lox_rs::error::Error;
use lox_rs::expr::{Expr, Visitor};
use lox_rs::literal::Literal;
use lox_rs::token::Token;
use lox_rs::token_type::TokenType;
use lox_rs::Lox;

#[test]
fn test_ast_printer() {
    let expression: Expr = Expr::Binary {
        left: Box::new(Expr::Unary {
            operator: Token::from(TokenType::Minus, String::from("-"), Literal::Empty, 1),
            right: Box::new(Expr::Literal {
                literal: Literal::Number(Decimal::parse("123").unwrap()),
            }),
        }),
        operator: Token::from(TokenType::Star, String::from("*"), Literal::Empty, 1),
        right: Box::new(Expr::Grouping {
            expression: Box::new(Expr::Literal {
                literal: Literal::Number(Decimal::parse("45.67").unwrap()),
            }),
        }),
    };

    let mut printer = AstPrinter;

    assert_eq!(printer.print(expression).unwrap(), "(* (- 123) (group 45.67))".to_string());
}

#[test]
fn literal_texts() {
    assert_eq!(Literal::String(String::from("raw \"text\"")).to_string(), "raw \"text\"");
    assert_eq!(Literal::Number(Decimal::parse("3.140").unwrap()).to_string(), "3.14");
    assert_eq!(Literal::Empty.to_string(), "null");
    assert_eq!(Literal::Boolean(true).to_string(), "true");
    assert_eq!(Literal::Boolean(false).to_string(), "false");
}

#[test]
fn decimal_parse_accepts_only_number_literals() {
    assert!(Decimal::parse("0").is_some());
    assert!(Decimal::parse("10.01").is_some());
    assert!(Decimal::parse("").is_none());
    assert!(Decimal::parse(".5").is_none());
    assert!(Decimal::parse("5.").is_none());
    assert!(Decimal::parse("1.2.3").is_none());
    assert!(Decimal::parse("-1").is_none());
    assert!(Decimal::parse("1e5").is_none());
    assert!(Decimal::parse(" 1").is_none());
    assert!(Decimal::parse("1a").is_none());
}

#[test]
fn decimal_text_is_in_shortest_form() {
    assert_eq!(Decimal::parse("000").unwrap().to_string(), "0");
    assert_eq!(Decimal::parse("0100").unwrap().to_string(), "100");
    assert_eq!(Decimal::parse("1.50").unwrap().to_string(), "1.5");
    assert_eq!(Decimal::parse("1.000").unwrap().to_string(), "1");
    assert_eq!(Decimal::parse("00.050").unwrap().to_string(), "0.05");
    assert_eq!(
        Decimal::parse("123456789012345678901234567890.123456789").unwrap().to_string(),
        "123456789012345678901234567890.123456789"
    );
}

#[test]
fn decimals_of_equal_value_are_equal() {
    assert_eq!(Decimal::parse("1.50").unwrap(), Decimal::parse("01.5").unwrap());
    assert_ne!(Decimal::parse("1.5").unwrap(), Decimal::parse("1.05").unwrap());
    assert!(Decimal::parse("2.0").unwrap().is_whole());
    assert!(!Decimal::parse("2.5").unwrap().is_whole());
}

#[test]
fn decimal_text_reads_back_as_the_same_value() {
    let d = Decimal::parse("0042.4200").unwrap();
    assert_eq!(Decimal::parse(&d.to_string()).unwrap(), d);
}

#[test]
fn printer_writes_the_operator_lexeme() {
    let expression = Expr::Binary {
        left: Box::new(Expr::Literal { literal: Literal::Boolean(true) }),
        operator: Token::from(TokenType::BangEqual, String::from("!="), Literal::Empty, 1),
        right: Box::new(Expr::Literal { literal: Literal::Empty }),
    };
    assert_eq!(AstPrinter.print(expression).unwrap(), "(!= true null)");
}

struct Counter {
    literals: usize,
}

impl Visitor<usize> for Counter {
    fn visit_binary_expr(&mut self, left: &Expr, _operator: &Token, right: &Expr) -> Result<usize, Error> {
        Ok(1 + left.accept(self)? + right.accept(self)?)
    }

    fn visit_grouping_expr(&mut self, expression: &Expr) -> Result<usize, Error> {
        Ok(1 + expression.accept(self)?)
    }

    fn visit_literal_expr(&mut self, _literal: &Literal) -> Result<usize, Error> {
        self.literals += 1;
        Ok(1)
    }

    fn visit_unary_expr(&mut self, _operator: &Token, right: &Expr) -> Result<usize, Error> {
        let under = right.accept(self)?;
        if under > 2 {
            return Err(Error::Runtime);
        }
        Ok(1 + under)
    }
}

#[test]
fn accept_calls_the_handler_of_the_node_kind() {
    let one = || Box::new(Expr::Literal { literal: Literal::Boolean(true) });
    let minus = || Token::from(TokenType::Minus, String::from("-"), Literal::Empty, 1);
    let tree = Expr::Binary {
        left: Box::new(Expr::Grouping { expression: one() }),
        operator: minus(),
        right: Box::new(Expr::Unary { operator: minus(), right: one() }),
    };
    let mut counter = Counter { literals: 0 };
    assert_eq!(tree.accept(&mut counter).unwrap(), 5);
    assert_eq!(counter.literals, 2);
}

#[test]
fn accept_returns_the_failure_of_a_handler() {
    let one = || Box::new(Expr::Literal { literal: Literal::Empty });
    let minus = || Token::from(TokenType::Minus, String::from("-"), Literal::Empty, 1);
    let tree = Expr::Unary {
        operator: minus(),
        right: Box::new(Expr::Binary { left: one(), operator: minus(), right: one() }),
    };
    let mut counter = Counter { literals: 0 };
    assert!(matches!(tree.accept(&mut counter), Err(Error::Runtime)));
}

#[test]
fn run_prints_the_expression() {
    let mut lox = Lox::new();
    assert_eq!(lox.run(String::from("1 + 2 * 3")), Some(String::from("(+ 1 (* 2 3))")));
    assert!(!lox.had_error());
}

#[test]
fn run_gives_nothing_on_a_lexical_error() {
    let mut lox = Lox::new();
    assert_eq!(lox.run(String::from("1 + $ 2")), None);
    assert_eq!(lox.diagnostics().len(), 1);
    assert_eq!(lox.diagnostics()[0].message, "Unexpected character");
}

#[test]
fn run_gives_nothing_on_a_syntax_error() {
    let mut lox = Lox::new();
    assert_eq!(lox.run(String::from("(1 + 2")), None);
    assert_eq!(lox.diagnostics().len(), 1);
    assert_eq!(lox.diagnostics()[0].location, "at end");
    assert_eq!(lox.diagnostics()[0].message, "Expect ')' after expression.");
}

#[test]
fn run_reports_lexical_errors_before_the_syntax_error() {
    let mut lox = Lox::new();
    assert_eq!(lox.run(String::from("# (")), None);
    assert_eq!(lox.diagnostics().len(), 2);
    assert_eq!(lox.diagnostics()[0].location, "");
    assert_eq!(lox.diagnostics()[1].location, "at end");
}

#[test]
fn run_gives_nothing_once_an_error_was_reported() {
    let mut lox = Lox::new();
    assert_eq!(lox.run(String::from("@")), None);
    assert_eq!(lox.run(String::from("1")), None);
    assert!(lox.had_error());
}

#[test]
fn printed_literal_read_back_prints_the_same() {
    for source in ["007.50", "true", "false", "42"] {
        let mut lox = Lox::new();
        let once = lox.run(String::from(source)).unwrap();
        let twice = lox.run(once.clone()).unwrap();
        assert_eq!(once, twice);
        assert!(!lox.had_error());
    }
}

#[test]
fn printed_operation_read_back_is_not_the_same() {
    let mut lox = Lox::new();
    let once = lox.run(String::from("-1")).unwrap();
    assert_eq!(once, "(- 1)");
    assert_eq!(lox.run(once), Some(String::from("(group (- 1))")));
    let mut lox = Lox::new();
    let once = lox.run(String::from("1 + 2")).unwrap();
    assert_eq!(lox.run(once), None);
}

#[test]
fn collector_keeps_reports_in_order() {
    let mut lox = Lox::new();
    assert!(!lox.had_error());
    lox.error(3, String::from("first"));
    lox.report(4, String::from("somewhere"), String::from("second"));
    lox.parse_error(
        Token::from(TokenType::Plus, String::from("+"), Literal::Empty, 5),
        String::from("third"),
    );
    lox.parse_error(
        Token::from(TokenType::Eof, String::new(), Literal::Empty, 6),
        String::from("fourth"),
    );
    assert!(lox.had_error());
    let found: Vec<(usize, &str, &str)> = lox
        .diagnostics()
        .iter()
        .map(|d| (d.line, d.location.as_str(), d.message.as_str()))
        .collect();
    assert_eq!(
        found,
        vec![
            (3, "", "first"),
            (4, "somewhere", "second"),
            (5, "at '+'", "third"),
            (6, "at end", "fourth"),
        ]
    );
}

#[test]
fn absent_value_prints_as_a_word_that_is_no_expression() {
    let mut lox = Lox::new();
    assert_eq!(lox.run(String::from("nil")), Some(String::from("null")));
    assert_eq!(lox.run(String::from("null")), None);
    assert_eq!(lox.diagnostics().len(), 1);
    assert_eq!(lox.diagnostics()[0].location, "at 'null'");
}

#[test]
fn printed_grouping_read_back_is_no_expression() {
    let mut lox = Lox::new();
    let once = lox.run(String::from("(1)")).unwrap();
    assert_eq!(once, "(group 1)");
    assert_eq!(lox.run(once), None);
    assert_eq!(lox.diagnostics()[0].location, "at 'group'");
    assert_eq!(lox.diagnostics()[0].message, "Expected expression.");
}

#[test]
fn printed_string_read_back_is_read_as_source() {
    let mut lox = Lox::new();
    let once = lox.run(String::from("\"1 + 2\"")).unwrap();
    assert_eq!(once, "1 + 2");
    assert_eq!(lox.run(once), Some(String::from("(+ 1 2)")));
}

#[test]
fn error_carries_an_input_output_failure() {
    let failure = std::io::Error::new(std::io::ErrorKind::NotFound, "no such file");
    let error = Error::Io(failure);
    match error {
        Error::Io(inner) => assert_eq!(inner.kind(), std::io::ErrorKind::NotFound),
        _ => panic!("an input/output failure was expected"),
    }
    assert_eq!(format!("{:?}", Error::Parser), "Parser");
    assert_eq!(format!("{:?}", Error::Runtime), "Runtime");
}
