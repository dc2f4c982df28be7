use lambda_beavers::debruijn::Debruijn;
use lambda_beavers::parse_binary::{self, BinaryTokenStream, ParseError};

#[test]
fn parse_universal_machine() {
    let binary = "
        01 01 00 01 10 10 00 00 00 01 01 01 10 00 00 00 00 01 1110 00 01 01 111110 01 1110 
        00 01 01 110 01 1110 00 00 01 1110 00 01 01 10 110 1110 01 11110 00 01 11110 00 
        01 01 1110 10 01 110 10 01 01 10 01 110 00 01 10 110 00 01 01 11110 00 01 11110 00
        01110 01 10 11110 111110 01 1110 1110 110 00 01 10 01 00 01 10 10 00 01 10 10";

    let expected =
        "(λ 1 1)(λλλ 1 (λλλλ 3 (λ 5 (3 (λ 2 (3 (λλ 3 (λ 1 2 3)))(4 (λ 4 (λ3 1 (2 1))))))
        (1 (2 (λ1 2))(λ4 (λ4 (λ2 (1 4))) 5)))) (3 3) 2)(λ 1 ((λ 1 1)(λ 1 1)))";
    let expected = Debruijn::from_str(expected).unwrap();

    let mut stream = BinaryTokenStream::from_text(binary);
    let parse = stream.parse();
    println!("{}", stream.to_string());
    let actual = parse.unwrap();
    assert_eq!(expected, actual);
}

#[test]
fn binary_errors() {
    assert_eq!(parse_binary::from_str("01 00"), Err(ParseError::EOF));
    assert_eq!(parse_binary::from_str("10 10"), Err(ParseError::LeftoverInput));
    assert_eq!(parse_binary::from_vec(vec![]), Err(ParseError::EOF));
}

#[test]
fn binary_round_trip() {
    let t = Debruijn::from_str("λ λ 2 (1 λ 3)").unwrap();
    let bits = t.to_binary_string();
    assert_eq!(parse_binary::from_str(&bits).unwrap(), t);
}

#[test]
fn stream_text_marks_position() {
    let mut stream = BinaryTokenStream::from_text("0010 11");
    let _ = stream.parse();
    assert_eq!(stream.to_string(), "001011\n    ^ ");
}
