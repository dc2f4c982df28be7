use lambda_beavers::debruijn::Debruijn;
use lambda_beavers::parse::{parse_program, tokenize};
use lambda_beavers::parse_binary;
use lambda_beavers::print::NodeLabelType;
use lambda_beavers::term::from_debruijn;
use lambda_beavers::utils;

#[test]
fn print_display_and_parse() {
    let term = Debruijn::from_str("(1 λ 1) 1").unwrap();
    let string = term.to_string();
    let term2 = Debruijn::from_str(&string).unwrap();
    assert_eq!(term, term2)
}

#[test]
fn print_bitstring_parse_to_debruijn() {
    for length in 0..=20 {
        for bitstring in utils::bitstring_permutations(length) {
            if let Ok(binary_term) = parse_binary::from_vec(bitstring) {
                let string = binary_term.to_string();
                let normal_term = Debruijn::from_str(&string).unwrap();
                assert_eq!(binary_term, normal_term, "terms did not match! {string}");
            }
        }
    }
}

#[test]
fn print_bitstring_parse_to_classic_closed_only() {
    for length in 0..=20 {
        for bitstring in utils::bitstring_permutations(length) {
            if let Ok(binary_term) = parse_binary::from_vec(bitstring) {
                if binary_term.is_closed_term() {
                    let classic_term = from_debruijn(&binary_term);
                    let string = classic_term.to_string();
                    let reparsed = parse_program(&tokenize(&string)).unwrap();
                    assert_eq!(classic_term, reparsed, "terms did not match! {string}");
                }
            }
        }
    }
}

#[test]
fn printing_parenthesises_where_needed() {
    let t = Debruijn::from_str("(λ 1) (2 3)").unwrap();
    assert_eq!(t.to_string(), "(λ 1) (2 3)");
    let t = Debruijn::from_str("λ λ 2 1").unwrap();
    assert_eq!(t.to_string(), "λ λ 2 1");
}

#[test]
fn node_labels() {
    let t = Debruijn::from_str("λ 1").unwrap();
    assert_eq!(NodeLabelType::Debruijn.to_string(&t), "λ 1");
    assert_eq!(NodeLabelType::Binary.to_string(&t), "0010");
    assert_eq!(NodeLabelType::BinaryLen.to_string(&t), "4");
}
