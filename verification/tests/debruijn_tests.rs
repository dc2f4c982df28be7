use lambda_beavers::debruijn::{call, compile, def, idx, try_from_term, Context, Debruijn};
use lambda_beavers::parse::{parse_program, tokenize};
use lambda_beavers::parse_binary;
use lambda_beavers::term::{from_debruijn, Term};
use lambda_beavers::utils;

fn classic(input: &str) -> Term {
    parse_program(&tokenize(input)).unwrap()
}

fn i(n: usize) -> Debruijn {
    idx(n)
}

fn l(body: Debruijn) -> Debruijn {
    def(body)
}

fn a(f: Debruijn, x: Debruijn) -> Debruijn {
    call(f, x)
}

fn assert_compile(input: &str, expected: Debruijn) {
    let term = classic(input);
    let actual = try_from_term(term).unwrap();
    assert_eq!(expected, actual);
}

fn assert_compile_with_context(input: &str, expected: Debruijn, ctx: &mut Context) {
    let term = classic(input);
    let actual = compile(term, ctx).unwrap();
    assert_eq!(expected, actual);
}

fn assert_invalid(input: &str) {
    let term = classic(input);
    let actual = try_from_term(term);
    assert!(actual.is_err())
}

fn bits_text(bits: &[bool]) -> String {
    bits.iter().map(|b| if *b { "1" } else { "0" }).collect()
}

#[test]
fn convert_i_is_for_identity() {
    assert_compile("λx.x", l(i(1)));
}

#[test]
fn convert_k_is_for_konstant() {
    assert_compile("λx. λy. x", l(l(i(2))));
}

#[test]
fn convert_s_is_for_substitution() {
    assert_compile(
        "λx. λy. λz. x z (y z)",
        l(l(l(a(a(i(3), i(1)), a(i(2), i(1)))))),
    );
}

#[test]
fn convert_w_is_for_wikipedia() {
    let input = "λwikipedia. (λthe. the (λfree. free)) (λfree. wikipedia free) ";
    let expected = l(a(l(a(i(1), l(i(1)))), l(a(i(2), i(1)))));
    assert_compile(input, expected)
}

#[test]
fn convert_shadowed() {
    let input = "λx.(λx.x) x";
    let expected = l(a(l(i(1)), i(1)));
    assert_compile(input, expected)
}

#[test]
fn convert_example() {
    let input = "λx.λy.(λu.λv.u x) y";
    let expected = l(l(a(l(l(a(i(2), i(4)))), i(1))));
    assert_compile(input, expected)
}

#[test]
fn convert_example2() {
    let input = "λy.λx.(λu.λv.u x) y";
    let expected = l(l(a(l(l(a(i(2), i(3)))), i(2))));
    assert_compile(input, expected)
}

#[test]
fn convert_example3() {
    let input = "λw.(λx.λy.λz.x y z) w";
    let expected = l(a(l(l(l(a(a(i(3), i(2)), i(1))))), i(1)));
    assert_compile(input, expected)
}

#[test]
fn convert_fail_unbound_trivial() {
    assert_invalid("x")
}

#[test]
fn convert_fail_unbound() {
    assert_invalid("λa.λb.a c")
}

#[test]
fn convert_fail_previously_bound() {
    assert_invalid("(λx.x) x")
}

#[test]
fn convert_ok_unbound_trivial() {
    let mut ctx = Context::from_names(&["a"]);
    assert_compile_with_context("a", i(1), &mut ctx);
}

#[test]
fn convert_ok_unbound_in_context() {
    let mut ctx = Context::from_names(&["b"]);
    assert_compile_with_context("λa.b", l(i(2)), &mut ctx);
}

#[test]
fn convert_ok_unbound_multi() {
    let mut ctx = Context::from_names(&["d", "a", "b"]);
    assert_compile_with_context("λc.d", l(i(4)), &mut ctx);
}

#[test]
fn convert_ok_unbound_andbound() {
    let mut ctx = Context::from_names(&["a"]);
    let expected = a(i(1), l(l(i(1))));
    assert_compile_with_context("a λb.λa.a", expected, &mut ctx);
}

#[test]
fn print_binary() {
    let term = l(l(l(a(a(i(1), i(3)), i(2)))));
    assert_compile("λx.λy.λz.z x y", term.clone());

    let binary = term.to_binary_string();
    assert_eq!("0000000101101110110", binary);
}

#[test]
fn debruijn_display_and_parse() {
    let term = Debruijn::from_str("(1 λ 1) 1").unwrap();
    let string = term.to_string();
    let term2 = Debruijn::from_str(&string).unwrap();
    assert_eq!(term, term2)
}

#[test]
fn debruijn_bitstring_parse_to_debruijn() {
    for length in 0..=20 {
        for bitstring in utils::bitstring_permutations(length) {
            let bitstring_string = bits_text(&bitstring);
            if let Ok(binary_term) = parse_binary::from_vec(bitstring) {
                let string = binary_term.to_string();
                let normal_term = Debruijn::from_str(&string).unwrap();
                assert_eq!(
                    binary_term, normal_term,
                    "terms did not match! binary {bitstring_string} -> {string}"
                );
            }
        }
    }
}

#[test]
fn debruijn_bitstring_parse_to_classic_closed_only() {
    for length in 0..=20 {
        for bitstring in utils::bitstring_permutations(length) {
            let bitstring_string = bits_text(&bitstring);
            if let Ok(binary_term) = parse_binary::from_vec(bitstring) {
                if binary_term.is_closed_term() {
                    let classic_term = from_debruijn(&binary_term);
                    let string = classic_term.to_string();
                    let classic_term_reparsed = classic(&string);
                    assert_eq!(
                        classic_term, classic_term_reparsed,
                        "terms did not match! binary {bitstring_string} -> {string}"
                    );
                }
            }
        }
    }
}

#[test]
fn closed_terms_are_recognised() {
    assert!(l(i(1)).is_closed_term());
    assert!(!l(i(2)).is_closed_term());
    assert!(l(l(a(i(2), i(1)))).is_closed_term());
}

#[test]
fn term_copy_and_equality() {
    let t = l(a(i(1), l(i(2))));
    let c = t.copy();
    assert!(t.equals(&c));
    assert!(!t.equals(&l(i(1))));
}
