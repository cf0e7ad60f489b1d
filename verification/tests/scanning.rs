use lox_rs::decimal::Decimal;
use lox_rs::literal::Literal;
use lox_rs::scanner::Scanner;
use lox_rs::token::Token;
use lox_rs::token_type::TokenType;
use lox_rs::{Diagnostic, Lox};

fn scan_all(source: &str) -> (Vec<Token>, Lox) {
    let mut lox = Lox::new();
    let mut scanner = Scanner::new(String::from(source));
    let tokens = scanner.scan_tokens(&mut lox);
    (tokens, lox)
}

fn types_of(tokens: &Vec<Token>) -> Vec<TokenType> {
    tokens.iter().map(|t| t.token_type).collect()
}

fn lexical(line: usize, message: &str) -> Diagnostic {
    Diagnostic { line, location: String::new(), message: String::from(message) }
}

#[test]
fn empty_source_is_one_eof_on_line_one() {
    let (tokens, lox) = scan_all("");
    assert_eq!(tokens, vec![Token::from(TokenType::Eof, String::new(), Literal::Empty, 1)]);
    assert!(!lox.had_error());
}

#[test]
fn whitespace_only_is_one_eof_and_no_error() {
    let (tokens, lox) = scan_all(" \t\r \n  \n\t");
    assert_eq!(tokens, vec![Token::from(TokenType::Eof, String::new(), Literal::Empty, 3)]);
    assert!(!lox.had_error());
    assert_eq!(lox.diagnostics().len(), 0);
}

#[test]
fn number_literal_is_one_number_token_with_its_value() {
    let (tokens, lox) = scan_all("45.67");
    assert_eq!(
        tokens,
        vec![
            Token::from(
                TokenType::Number,
                String::from("45.67"),
                Literal::Number(Decimal::parse("45.67").unwrap()),
                1
            ),
            Token::from(TokenType::Eof, String::new(), Literal::Empty, 1),
        ]
    );
    assert!(!lox.had_error());
}

#[test]
fn number_value_drops_needless_zeros_but_lexeme_keeps_them() {
    let (tokens, _) = scan_all("007.500");
    assert_eq!(tokens.len(), 2);
    assert_eq!(tokens[0].lexeme, "007.500");
    assert_eq!(tokens[0].literal.to_string(), "7.5");
    assert_eq!(tokens[0].literal, Literal::Number(Decimal::parse("7.5").unwrap()));
}

#[test]
fn trailing_dot_is_not_part_of_the_number() {
    let (tokens, lox) = scan_all("12.");
    assert_eq!(types_of(&tokens), vec![TokenType::Number, TokenType::Dot, TokenType::Eof]);
    assert_eq!(tokens[0].lexeme, "12");
    assert_eq!(tokens[0].literal.to_string(), "12");
    assert!(!lox.had_error());
}

#[test]
fn leading_dot_is_a_dot_then_a_number() {
    let (tokens, _) = scan_all(".5");
    assert_eq!(types_of(&tokens), vec![TokenType::Dot, TokenType::Number, TokenType::Eof]);
    assert_eq!(tokens[1].literal.to_string(), "5");
}

#[test]
fn second_point_ends_the_number() {
    let (tokens, _) = scan_all("1.2.3");
    assert_eq!(
        types_of(&tokens),
        vec![TokenType::Number, TokenType::Dot, TokenType::Number, TokenType::Eof]
    );
    assert_eq!(tokens[0].lexeme, "1.2");
    assert_eq!(tokens[2].lexeme, "3");
}

#[test]
fn single_character_tokens() {
    let (tokens, lox) = scan_all("(){},.-+;*/");
    assert_eq!(
        types_of(&tokens),
        vec![
            TokenType::LeftParen,
            TokenType::RightParen,
            TokenType::LeftBrace,
            TokenType::RightBrace,
            TokenType::Comma,
            TokenType::Dot,
            TokenType::Minus,
            TokenType::Plus,
            TokenType::Semicolon,
            TokenType::Star,
            TokenType::Slash,
            TokenType::Eof,
        ]
    );
    assert_eq!(tokens[0].lexeme, "(");
    assert_eq!(tokens[10].lexeme, "/");
    assert_eq!(tokens[10].literal, Literal::Empty);
    assert!(!lox.had_error());
}

#[test]
fn one_or_two_character_operators() {
    let (tokens, _) = scan_all("! != = == < <= > >=");
    assert_eq!(
        types_of(&tokens),
        vec![
            TokenType::Bang,
            TokenType::BangEqual,
            TokenType::Equal,
            TokenType::EqualEqual,
            TokenType::Less,
            TokenType::LessEqual,
            TokenType::Greater,
            TokenType::GreaterEqual,
            TokenType::Eof,
        ]
    );
    assert_eq!(tokens[1].lexeme, "!=");
    assert_eq!(tokens[7].lexeme, ">=");
}

#[test]
fn operators_pair_from_the_left() {
    let (tokens, _) = scan_all("===!");
    assert_eq!(
        types_of(&tokens),
        vec![TokenType::EqualEqual, TokenType::Equal, TokenType::Bang, TokenType::Eof]
    );
}

#[test]
fn keywords_and_identifiers() {
    let (tokens, lox) = scan_all(
        "and class else false for fun if nil or print return super this true var while",
    );
    assert_eq!(
        types_of(&tokens),
        vec![
            TokenType::And,
            TokenType::Class,
            TokenType::Else,
            TokenType::False,
            TokenType::For,
            TokenType::Fun,
            TokenType::If,
            TokenType::Nil,
            TokenType::Or,
            TokenType::Print,
            TokenType::Return,
            TokenType::Super,
            TokenType::This,
            TokenType::True,
            TokenType::Var,
            TokenType::While,
            TokenType::Eof,
        ]
    );
    assert!(!lox.had_error());
}

#[test]
fn words_that_only_resemble_keywords_are_identifiers() {
    let (tokens, _) = scan_all("andy _or While x1 nil_ truE");
    assert_eq!(
        types_of(&tokens),
        vec![
            TokenType::Identifier,
            TokenType::Identifier,
            TokenType::Identifier,
            TokenType::Identifier,
            TokenType::Identifier,
            TokenType::Identifier,
            TokenType::Eof,
        ]
    );
    assert_eq!(tokens[0].lexeme, "andy");
    assert_eq!(tokens[3].lexeme, "x1");
    assert_eq!(tokens[3].literal, Literal::Empty);
}

#[test]
fn digits_then_letters_are_a_number_then_an_identifier() {
    let (tokens, _) = scan_all("12ab");
    assert_eq!(types_of(&tokens), vec![TokenType::Number, TokenType::Identifier, TokenType::Eof]);
    assert_eq!(tokens[0].lexeme, "12");
    assert_eq!(tokens[1].lexeme, "ab");
}

#[test]
fn string_literal_keeps_its_text_as_it_is() {
    let (tokens, lox) = scan_all("\"a\\n b\"");
    assert_eq!(
        tokens,
        vec![
            Token::from(
                TokenType::String,
                String::from("\"a\\n b\""),
                Literal::String(String::from("a\\n b")),
                1
            ),
            Token::from(TokenType::Eof, String::new(), Literal::Empty, 1),
        ]
    );
    assert!(!lox.had_error());
}

#[test]
fn empty_string_literal() {
    let (tokens, _) = scan_all("\"\"");
    assert_eq!(types_of(&tokens), vec![TokenType::String, TokenType::Eof]);
    assert_eq!(tokens[0].literal, Literal::String(String::new()));
    assert_eq!(tokens[0].lexeme, "\"\"");
}

#[test]
fn string_with_line_feeds_counts_lines_and_ends_on_the_last() {
    let (tokens, lox) = scan_all("\"one\ntwo\nthree\" 4\n5");
    assert_eq!(
        types_of(&tokens),
        vec![TokenType::String, TokenType::Number, TokenType::Number, TokenType::Eof]
    );
    assert_eq!(tokens[0].literal, Literal::String(String::from("one\ntwo\nthree")));
    assert_eq!(tokens[0].line, 3);
    assert_eq!(tokens[1].line, 3);
    assert_eq!(tokens[2].line, 4);
    assert_eq!(tokens[3].line, 4);
    assert!(!lox.had_error());
}

#[test]
fn string_with_characters_outside_ascii() {
    let (tokens, lox) = scan_all("\"héllo ✓\"");
    assert_eq!(types_of(&tokens), vec![TokenType::String, TokenType::Eof]);
    assert_eq!(tokens[0].literal, Literal::String(String::from("héllo ✓")));
    assert!(!lox.had_error());
}

#[test]
fn unterminated_string_is_one_error_and_no_string_token() {
    let (tokens, lox) = scan_all("1 + \"abc");
    assert_eq!(types_of(&tokens), vec![TokenType::Number, TokenType::Plus, TokenType::Eof]);
    assert_eq!(lox.diagnostics(), &vec![lexical(1, "Unterminated string.")]);
    assert!(lox.had_error());
}

#[test]
fn unterminated_string_is_reported_on_the_line_where_the_text_ends() {
    let (tokens, lox) = scan_all("\"abc\n\ndef");
    assert_eq!(tokens, vec![Token::from(TokenType::Eof, String::new(), Literal::Empty, 3)]);
    assert_eq!(lox.diagnostics(), &vec![lexical(3, "Unterminated string.")]);
}

#[test]
fn line_comment_gives_no_token() {
    let (tokens, lox) = scan_all("1 // two three \"four\n5");
    assert_eq!(types_of(&tokens), vec![TokenType::Number, TokenType::Number, TokenType::Eof]);
    assert_eq!(tokens[0].line, 1);
    assert_eq!(tokens[1].line, 2);
    assert_eq!(tokens[1].lexeme, "5");
    assert!(!lox.had_error());
}

#[test]
fn line_comment_at_the_end_of_input_without_a_line_feed() {
    let (tokens, lox) = scan_all("1 // the rest");
    assert_eq!(types_of(&tokens), vec![TokenType::Number, TokenType::Eof]);
    assert_eq!(tokens[1].line, 1);
    assert!(!lox.had_error());
}

#[test]
fn only_a_comment() {
    let (tokens, lox) = scan_all("//");
    assert_eq!(tokens, vec![Token::from(TokenType::Eof, String::new(), Literal::Empty, 1)]);
    assert!(!lox.had_error());
}

#[test]
fn comment_counts_a_line_only_by_its_line_feed() {
    let (with_comment, _) = scan_all("// a\n// b\nx");
    let (without, _) = scan_all("\n\nx");
    assert_eq!(with_comment, without);
    assert_eq!(with_comment[0].line, 3);
}

#[test]
fn lone_slash_is_the_divide_operator() {
    let (tokens, _) = scan_all("8 / 2");
    assert_eq!(types_of(&tokens), vec![TokenType::Number, TokenType::Slash, TokenType::Number, TokenType::Eof]);
}

#[test]
fn unexpected_characters_are_reported_and_scanning_goes_on() {
    let (tokens, lox) = scan_all("1 @ 2\n# 3");
    assert_eq!(
        types_of(&tokens),
        vec![TokenType::Number, TokenType::Number, TokenType::Number, TokenType::Eof]
    );
    assert_eq!(
        lox.diagnostics(),
        &vec![lexical(1, "Unexpected character"), lexical(2, "Unexpected character")]
    );
}

#[test]
fn character_outside_ascii_is_unexpected() {
    let (tokens, lox) = scan_all("é");
    assert_eq!(types_of(&tokens), vec![TokenType::Eof]);
    assert_eq!(lox.diagnostics(), &vec![lexical(1, "Unexpected character")]);
}

#[test]
fn scanning_twice_adds_only_another_eof() {
    let mut lox = Lox::new();
    let mut scanner = Scanner::new(String::from("1"));
    let first = scanner.scan_tokens(&mut lox);
    let second = scanner.scan_tokens(&mut lox);
    assert_eq!(types_of(&first), vec![TokenType::Number, TokenType::Eof]);
    assert_eq!(types_of(&second), vec![TokenType::Number, TokenType::Eof, TokenType::Eof]);
}

#[test]
fn token_dump_line() {
    let (tokens, _) = scan_all("12 \"hi\" x 1.5 true");
    assert_eq!(tokens[0].to_string(), "Number, 12, Number(12.0)");
    assert_eq!(tokens[1].to_string(), "String, \"hi\", String(\"hi\")");
    assert_eq!(tokens[2].to_string(), "Identifier, x, Empty");
    assert_eq!(tokens[3].to_string(), "Number, 1.5, Number(1.5)");
    assert_eq!(tokens[4].to_string(), "True, true, Empty");
    assert_eq!(tokens[5].to_string(), "Eof, , Empty");
}

#[test]
fn number_literal_inside_a_text_is_one_number_token() {
    let (tokens, lox) = scan_all("x = 3.250;\n(10)");
    assert_eq!(
        types_of(&tokens),
        vec![
            TokenType::Identifier,
            TokenType::Equal,
            TokenType::Number,
            TokenType::Semicolon,
            TokenType::LeftParen,
            TokenType::Number,
            TokenType::RightParen,
            TokenType::Eof,
        ]
    );
    assert_eq!(
        tokens[2],
        Token::from(
            TokenType::Number,
            String::from("3.250"),
            Literal::Number(Decimal::parse("3.25").unwrap()),
            1
        )
    );
    assert_eq!(
        tokens[5],
        Token::from(
            TokenType::Number,
            String::from("10"),
            Literal::Number(Decimal::parse("10").unwrap()),
            2
        )
    );
    assert!(!lox.had_error());
}

#[test]
fn token_stream_has_exactly_one_eof() {
    for source in ["", "1 + 2", "\"open", "// note\n@ x", "(((", "a\nb\nc"] {
        let (tokens, _) = scan_all(source);
        let count = tokens.iter().filter(|t| t.token_type == TokenType::Eof).count();
        assert_eq!(count, 1);
        assert_eq!(tokens.last().unwrap().token_type, TokenType::Eof);
    }
}
