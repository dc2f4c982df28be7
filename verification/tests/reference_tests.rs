use lambda_beavers::debruijn::{call, compile, def, idx, Context, Debruijn};
use lambda_beavers::parse::{parse_program, tokenize};
use lambda_beavers::reference::{beta_reduce, reduce, shift_cutoff, substitute, ReduceResult};

fn compile_in(input: &str, mut context: Context) -> Debruijn {
    let term = parse_program(&tokenize(input)).unwrap();
    compile(term, &mut context).unwrap()
}

#[test]
fn shift_cutoff_1() {
    let term = idx(1);
    let expected = idx(2);
    let actual = shift_cutoff(&term, 1);
    assert_eq!(expected, actual);
}

#[test]
fn substitute_simple() {
    let term = idx(1);
    let term2 = idx(1);
    let actual = substitute(&term, &term2, 1);
    let expected = idx(1);
    assert_eq!(actual, expected);
}

#[test]
fn substitute_less_trivial() {
    let mut context = Context::default();
    context.push_literal("w");

    let func_body = compile_in("λx.λy.λz. x y z", context.clone());
    assert_eq!(func_body, def(def(def(call(call(idx(3), idx(2)), idx(1))))));

    let term = compile_in("w", context.clone());
    assert_eq!(term, idx(1));

    let actual = beta_reduce(&func_body, &term);
    let expected = compile_in("λy.λz. w y z", context);
    assert_eq!(expected, def(def(call(call(idx(3), idx(2)), idx(1)))));
    assert_eq!(actual, expected);
}

#[test]
fn beta_reduce_example() {
    let mut context = Context::default();
    context.push_literal("y");
    context.push_literal("x");
    let term = compile_in("λu.λv.u x", context.clone());
    assert_eq!(term, def(def(call(idx(2), idx(3)))));

    let term2 = compile_in("y", context.clone());
    assert_eq!(term2, idx(2));

    let actual = beta_reduce(&term, &term2);
    let expected = compile_in("λv.y x", context.clone());
    assert_eq!(expected, def(call(idx(3), idx(2))));
    assert_eq!(actual, expected);
}

#[test]
fn substitute_shadowing() {
    let term = def(idx(1));
    let term2 = idx(1);
    let actual = substitute(&term, &term2, 1);
    let expected = def(idx(1));
    assert_eq!(actual, expected);
}

#[test]
fn reference_reduces_to_normal_form() {
    let mut t = Debruijn::from_str("(λ λ 2) (λ 1) (λ λ 1)").unwrap();
    let r = reduce(&mut t, 10);
    assert!(matches!(r, ReduceResult::NormalForm));
    assert_eq!(t, Debruijn::from_str("λ 1").unwrap());
}

#[test]
fn reference_stops_at_limit() {
    let mut t = Debruijn::from_str("(λ 1 1) (λ 1 1)").unwrap();
    let r = reduce(&mut t, 5);
    assert!(matches!(r, ReduceResult::NotNormalForm));
    assert_eq!(t, Debruijn::from_str("(λ 1 1) (λ 1 1)").unwrap());
}
