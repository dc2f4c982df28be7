use lambda_beavers::parse::{parse_program, tokenize, Token};
use lambda_beavers::term::{call, def, lit, Term};

fn lt(s: &str) -> Token {
    Token::Literal(s.to_string())
}

fn assert_parse(input: &str, expected: Term) {
    let tokens = tokenize(input);
    let actual = parse_program(&tokens).unwrap();
    assert_eq!(expected, actual);
}

fn assert_invalid(input: &str) {
    let tokens = tokenize(input);
    let actual = parse_program(&tokens);
    assert!(actual.is_err());
}

#[test]
fn test_tokenize_simple_lambda() {
    let tokens = tokenize("λx.x");
    let expected = vec![Token::Lambda, lt("x"), Token::Dot, lt("x")];
    assert_eq!(tokens, expected);
}

#[test]
fn test_tokenize_application() {
    let tokens = tokenize("(λx.x y)");
    let expected = vec![
        Token::LeftParen,
        Token::Lambda,
        lt("x"),
        Token::Dot,
        lt("x"),
        lt("y"),
        Token::RightParen,
    ];
    assert_eq!(tokens, expected);
}

#[test]
fn test_tokenize_nested_lambda() {
    let tokens = tokenize("λx.λy.(x y)");
    let expected = vec![
        Token::Lambda,
        lt("x"),
        Token::Dot,
        Token::Lambda,
        lt("y"),
        Token::Dot,
        Token::LeftParen,
        lt("x"),
        lt("y"),
        Token::RightParen,
    ];
    assert_eq!(tokens, expected);
}

#[test]
fn test_tokenize_with_spaces() {
    let tokens = tokenize(" ( λ x . x y ) ");
    let expected = vec![
        Token::LeftParen,
        Token::Lambda,
        lt("x"),
        Token::Dot,
        lt("x"),
        lt("y"),
        Token::RightParen,
    ];
    assert_eq!(tokens, expected);
}

#[test]
fn test_parse_simple_literal() {
    assert_parse("x", lit("x"));
}

#[test]
fn test_parse_simple_lambda() {
    assert_parse("λx.x", def("x", lit("x")));
}

#[test]
fn test_parse_simple_call() {
    assert_parse("(x y)", call(lit("x"), lit("y")));
}

#[test]
fn test_parse_multiletter_literal() {
    assert_parse("(λfoo.bar baz)", def("foo", call(lit("bar"), lit("baz"))));
}

#[test]
fn test_parse_nested_lambda() {
    assert_parse(
        "λa.λb.λc.((a b) c)",
        def("a", def("b", def("c", call(call(lit("a"), lit("b")), lit("c"))))),
    );
}

#[test]
fn test_parse_drop_outer_parens1() {
    assert_parse("a", lit("a"));
}

#[test]
fn test_parse_drop_outer_parens2() {
    assert_parse("a b", call(lit("a"), lit("b")));
}

#[test]
fn test_parse_drop_outer_parens3() {
    assert_parse("λa.a", def("a", lit("a")));
}

#[test]
fn test_parse_left_associative() {
    assert_parse("a b c", call(call(lit("a"), lit("b")), lit("c")));
}

#[test]
fn test_parse_lambda_greedy_extend() {
    assert_parse("λx.M N", def("x", call(lit("M"), lit("N"))));
}

#[test]
fn test_parse_invalid_empty() {
    assert_invalid("");
}

#[test]
fn test_parse_invalid_lambda_missing_body() {
    assert_invalid("λa.λb.λc.");
}

#[test]
fn test_parse_invalid_lambda_missing_dot() {
    assert_invalid("λ a b");
}

#[test]
fn test_parse_valid_leftovers() {
    assert_parse("λa.b leftover", def("a", call(lit("b"), lit("leftover"))));
}

#[test]
fn test_parse_invalid_dot() {
    assert_invalid(". λa.b");
}

#[test]
fn test_parse_invalid_paren() {
    assert_invalid(") λa.b");
}

#[test]
fn test_parse_mismatched_paren() {
    assert_invalid("(λa.b");
}

#[test]
fn test_parse_invalid_lambda_argument() {
    assert_invalid("λ(a b).c");
}

#[test]
fn pretty_joins_tokens_with_spaces() {
    let tokens = tokenize("λx.(x y)");
    assert_eq!(lambda_beavers::parse::pretty(&tokens), "λ x . ( x y )");
}

#[test]
fn parse_error_reports_expected_and_actual() {
    let tokens = tokenize("λ a b");
    let err = parse_program(&tokens).unwrap_err();
    assert_eq!(
        err,
        lambda_beavers::parse::ParseError::UnexpectedToken {
            expected: vec![Token::Dot],
            actual: Some(lt("b")),
        }
    );
    let tokens = tokenize(". x");
    let err = parse_program(&tokens).unwrap_err();
    assert_eq!(
        err,
        lambda_beavers::parse::ParseError::UnexpectedToken {
            expected: vec![Token::Lambda, Token::LeftParen, Token::RightParen, lt("literal")],
            actual: Some(Token::Dot),
        }
    );
    assert_eq!(parse_program(&tokenize("")).unwrap_err(), lambda_beavers::parse::ParseError::Empty);
}

#[test]
fn parse_outer_parens_only_dropped_when_they_enclose_everything() {
    assert_parse("(a)(b)", call(lit("a"), lit("b")));
    assert_parse("((a)(b))", call(lit("a"), lit("b")));
}
