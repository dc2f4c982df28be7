use lambda_beavers::debruijn::{call, def, idx, Debruijn};
use lambda_beavers::parse::debruijn::{parse_program, tokenize, ParseError, Token};

fn assert_parse(input: &str, expected: Debruijn) {
    let tokens = tokenize(input).unwrap();
    let actual = parse_program(&tokens).unwrap();
    assert_eq!(expected, actual);
}

fn assert_invalid(input: &str) {
    let tokens = tokenize(input).unwrap();
    let actual = parse_program(&tokens);
    assert!(actual.is_err());
}

#[test]
fn tokenize_simple_lambda() {
    let tokens = tokenize("λ 1").unwrap();
    assert_eq!(tokens, vec![Token::Lambda, Token::Index(1)]);
}

#[test]
fn tokenize_application() {
    let tokens = tokenize("(λ 1 2)").unwrap();
    let expected = vec![
        Token::LeftParen,
        Token::Lambda,
        Token::Index(1),
        Token::Index(2),
        Token::RightParen,
    ];
    assert_eq!(tokens, expected);
}

#[test]
fn tokenize_nested_lambda() {
    let tokens = tokenize("λλ (1 2)").unwrap();
    let expected = vec![
        Token::Lambda,
        Token::Lambda,
        Token::LeftParen,
        Token::Index(1),
        Token::Index(2),
        Token::RightParen,
    ];
    assert_eq!(tokens, expected);
}

#[test]
fn tokenize_with_spaces() {
    let tokens = tokenize(" ( λ 1 2 ) ").unwrap();
    let expected = vec![
        Token::LeftParen,
        Token::Lambda,
        Token::Index(1),
        Token::Index(2),
        Token::RightParen,
    ];
    assert_eq!(tokens, expected);
}

#[test]
fn parse_simple_literal() {
    assert_parse("1", idx(1));
}

#[test]
fn parse_simple_lambda() {
    assert_parse("(λ 1)", def(idx(1)));
}

#[test]
fn parse_simple_call() {
    assert_parse("(1 2)", call(idx(1), idx(2)));
}

#[test]
fn parse_nested_lambda() {
    assert_parse("λ λ λ ((3 2) 1)", def(def(def(call(call(idx(3), idx(2)), idx(1))))));
}

#[test]
fn parse_drop_outer_parens2() {
    assert_parse("1 2", call(idx(1), idx(2)));
}

#[test]
fn parse_drop_outer_parens3() {
    assert_parse("λ 1", def(idx(1)));
}

#[test]
fn parse_left_associative() {
    assert_parse("1 2 3", call(call(idx(1), idx(2)), idx(3)));
}

#[test]
fn parse_lambda_greedy_extend() {
    assert_parse("λ 1 2", def(call(idx(1), idx(2))));
}

#[test]
fn parse_invalid_empty() {
    assert_invalid("");
}

#[test]
fn parse_zero_is_invalid() {
    assert_invalid("λ 0");
}

#[test]
fn parse_invalid_lambda_missing_body() {
    assert_invalid("λ λ λ");
}

#[test]
fn parse_invalid_paren() {
    assert_invalid(") λ 2");
}

#[test]
fn parse_mismatched_paren() {
    assert_invalid("(λ 2");
}

#[test]
fn parse_and_false() {
    assert_parse(
        "(λ λ 2 1 2) (λ λ 1)",
        call(def(def(call(call(idx(2), idx(1)), idx(2)))), def(def(idx(1)))),
    );
}

#[test]
fn parse_and() {
    assert_parse("λ λ 2 1 2", def(def(call(call(idx(2), idx(1)), idx(2)))));
}

#[test]
fn parse_false() {
    assert_parse("λ λ 1", def(def(idx(1))));
}

#[test]
fn pretty_print_roundtrip() {}

#[test]
fn tokenize_other_lambda_spellings() {
    let tokens = tokenize("y\\ +7").unwrap();
    assert_eq!(tokens, vec![Token::Lambda, Token::Lambda, Token::Index(7)]);
}

#[test]
fn tokenize_rejects_non_integer() {
    match tokenize("λ 1x") {
        Err(ParseError::ParseIntError { token, .. }) => assert_eq!(token, "1x"),
        other => panic!("unexpected {:?}", other),
    }
}

#[test]
fn parse_zero_reports_error_kind() {
    let tokens = tokenize("λ 0").unwrap();
    assert_eq!(parse_program(&tokens), Err(ParseError::IntIsZeroError));
    let tokens = tokenize("(λ 2").unwrap();
    assert_eq!(
        parse_program(&tokens),
        Err(ParseError::UnexpectedToken { expected: vec![Token::RightParen], actual: None })
    );
}
