use lambda_beavers::debruijn::Debruijn;
use lambda_beavers::flat_tree::check_contours;
use lambda_beavers::reduce::{reduce, Reducer, ReductionResult};
use lambda_beavers::reference;

fn assert_contour(reducer: &Reducer) {
    if let Err(error) = check_contours(&reducer.tree) {
        panic!("Error for tree: {error:?}");
    }
}

fn run_contour_testcase(testcase: &str) {
    let term = Debruijn::from_str(testcase).unwrap();
    let mut reducer = Reducer::new(&term);
    assert_contour(&reducer);
    for _ in 0..6 {
        reducer.reduce_one();
        assert_contour(&reducer);
    }
}

fn reference_reduce(term: &Debruijn) -> Debruijn {
    let mut term = term.clone();
    let result = reference::reduce(&mut term, 20);
    match result {
        reference::ReduceResult::NormalForm => term,
        reference::ReduceResult::NotNormalForm => panic!("Couldn't get reference reduction"),
    }
}

fn assert_matches_reference(testcase: &str) {
    let term = Debruijn::from_str(testcase).unwrap();
    let expected = reference_reduce(&term);
    let (actual, _) = reduce(&term, 100);
    match actual {
        ReductionResult::NormalForm(actual) => {
            assert_eq!(actual, expected, "expected {}, got {}", expected.to_string(), actual.to_string())
        },
        ReductionResult::Irreducible => panic!("Couldn't reduce after 100 steps! (is irreducible)"),
        ReductionResult::MaxReductionsReached => panic!("Couldn't reduce after 100 steps!"),
    }
}

#[test]
fn parent_usage_simplest() {
    let term = Debruijn::from_str("λ (λ 1 1) (1 1)").unwrap();
    let mut reducer = Reducer::new(&term);
    reducer.reduce_one();
    assert_contour(&reducer);
}

#[test]
fn parent_usage_open_terms() {
    let term = Debruijn::from_str("λ (λ 1 1) 99").unwrap();
    let mut reducer = Reducer::new(&term);
    reducer.reduce_one();
    assert_contour(&reducer);
}

#[test]
fn parent_usage() {
    let term = Debruijn::from_str("(λ λ λ 3 1 (2 1)) ((λ λ 2) (λ λ λ 3 1 (2 1))) λ λ 2").unwrap();
    let mut reducer = Reducer::new(&term);
    assert_contour(&reducer);
    reducer.reduce_one();
    assert_contour(&reducer);
    reducer.reduce_one();
    assert_contour(&reducer);
    reducer.reduce_one();
    assert_contour(&reducer);
    reducer.reduce_one();
    assert_contour(&reducer);
    reducer.reduce_one();
    assert_contour(&reducer);
    reducer.reduce_one();
    assert_contour(&reducer);
    reducer.reduce_one();
    assert_contour(&reducer);
}

#[test]
fn parent_usage_another() {
    let term = Debruijn::from_str("(λ λ 3 2) (λ λ 2)").unwrap();
    let mut reducer = Reducer::new(&term);
    assert_contour(&reducer);
    reducer.reduce_one();
    assert_contour(&reducer);
    reducer.reduce_one();
    assert_contour(&reducer);
    reducer.reduce_one();
    assert_contour(&reducer);
    reducer.reduce_one();
    assert_contour(&reducer);
    reducer.reduce_one();
    assert_contour(&reducer);
    reducer.reduce_one();
    assert_contour(&reducer);
    reducer.reduce_one();
    assert_contour(&reducer);
}

#[test]
fn parent_usage2() {
    let term = Debruijn::from_str("(λ λ 1) 10").unwrap();
    let mut reducer = Reducer::new(&term);
    reducer.reduce_one();
    assert_contour(&reducer);
}

#[test]
fn usage4() {
    let term = Debruijn::from_str("λ ((λ λ 1) 99) 1 99").unwrap();
    let mut reducer = Reducer::new(&term);
    assert_contour(&reducer);
    reducer.reduce_one();
    assert_contour(&reducer);
    reducer.reduce_one();
    assert_contour(&reducer);
    reducer.reduce_one();
    assert_contour(&reducer);
    reducer.reduce_one();
    assert_contour(&reducer);
    reducer.reduce_one();
    assert_contour(&reducer);
    reducer.reduce_one();
    assert_contour(&reducer);
    reducer.reduce_one();
    assert_contour(&reducer);
}

#[test]
fn usage4_simpler() {
    let term = Debruijn::from_str("λ ((λ λ 1) 99) 1").unwrap();
    let mut reducer = Reducer::new(&term);
    assert_contour(&reducer);
    reducer.reduce_one();
    assert_contour(&reducer);
    reducer.reduce_one();
    assert_contour(&reducer);
    reducer.reduce_one();
    assert_contour(&reducer);
    reducer.reduce_one();
    assert_contour(&reducer);
    reducer.reduce_one();
    assert_contour(&reducer);
    reducer.reduce_one();
    assert_contour(&reducer);
    reducer.reduce_one();
    assert_contour(&reducer);
}

#[test]
fn parent_usage_simpler() {
    let term = Debruijn::from_str("λ (λ λ λ 2) 100").unwrap();
    let mut reducer = Reducer::new(&term);
    assert_contour(&reducer);
    reducer.reduce_one();
    assert_contour(&reducer);
    reducer.reduce_one();
    assert_contour(&reducer);
    reducer.reduce_one();
    assert_contour(&reducer);
    reducer.reduce_one();
    assert_contour(&reducer);
    reducer.reduce_one();
    assert_contour(&reducer);
    reducer.reduce_one();
    assert_contour(&reducer);
    reducer.reduce_one();
    assert_contour(&reducer);
}

#[test]
fn from_fuzzer() {
    let term = Debruijn::from_str("λ (λ 1 λ 1) λ λ 3").unwrap();
    let mut reducer = Reducer::new(&term);
    assert_contour(&reducer);
    reducer.reduce_one();
    assert_contour(&reducer);
    reducer.reduce_one();
    assert_contour(&reducer);
    reducer.reduce_one();
    assert_contour(&reducer);
    reducer.reduce_one();
    assert_contour(&reducer);
    reducer.reduce_one();
    assert_contour(&reducer);
    reducer.reduce_one();
    assert_contour(&reducer);
    reducer.reduce_one();
    assert_contour(&reducer);
}

#[test]
fn from_fuzzer2() {
    let term = Debruijn::from_str("(λ 1 λ 3) λ 1").unwrap();
    let mut reducer = Reducer::new(&term);
    assert_contour(&reducer);
    reducer.reduce_one();
    assert_contour(&reducer);
    reducer.reduce_one();
    assert_contour(&reducer);
    reducer.reduce_one();
    assert_contour(&reducer);
    reducer.reduce_one();
    assert_contour(&reducer);
    reducer.reduce_one();
    assert_contour(&reducer);
    reducer.reduce_one();
    assert_contour(&reducer);
    reducer.reduce_one();
    assert_contour(&reducer);
}

#[test]
fn from_fuzzer3() {
    let term = Debruijn::from_str("(λ λ 2 1) λ 1").unwrap();
    let mut reducer = Reducer::new(&term);
    assert_contour(&reducer);
    reducer.reduce_one();
    assert_contour(&reducer);
    reducer.reduce_one();
    assert_contour(&reducer);
    reducer.reduce_one();
    assert_contour(&reducer);
    reducer.reduce_one();
    assert_contour(&reducer);
    reducer.reduce_one();
    assert_contour(&reducer);
    reducer.reduce_one();
    assert_contour(&reducer);
    reducer.reduce_one();
    assert_contour(&reducer);
}

#[test]
fn parent_usage_simple_2() {
    let term = Debruijn::from_str("λ (λ λ 1) 100").unwrap();
    let mut reducer = Reducer::new(&term);
    reducer.reduce_one();
    assert_contour(&reducer);
}

#[test]
fn fuzzer4() {
    let term = Debruijn::from_str("2 1 λ λ (λ λ 1 20 2) 20 λ 2 λ λ λ 22 λ λ λ λ λ λ λ λ λ 22 λ 5 λ λ λ 5 λ λ (λ λ 1 20 2) 20 λ 2 λ 1 22").unwrap();
    let mut reducer = Reducer::new(&term);
    assert_contour(&reducer);
    reducer.reduce_one();
    assert_contour(&reducer);
    reducer.reduce_one();
    assert_contour(&reducer);
    reducer.reduce_one();
    assert_contour(&reducer);
    reducer.reduce_one();
    assert_contour(&reducer);
    reducer.reduce_one();
    assert_contour(&reducer);
    reducer.reduce_one();
    assert_contour(&reducer);
    reducer.reduce_one();
    assert_contour(&reducer);
}

#[test]
fn fuzzer5() {
    let term = Debruijn::from_str("λ λ λ (7 13) λ λ λ λ λ λ λ λ λ λ λ λ λ λ λ (λ λ λ λ λ λ λ λ λ λ λ λ λ 13 13) λ λ λ λ λ λ λ λ λ λ λ λ λ λ λ λ (λ λ λ λ λ λ λ λ λ λ λ λ λ λ λ 15 λ 15) 15 λ λ λ λ λ λ λ λ 255").unwrap();
    let mut reducer = Reducer::new(&term);
    assert_contour(&reducer);
    reducer.reduce_one();
    assert_contour(&reducer);
    reducer.reduce_one();
    assert_contour(&reducer);
    reducer.reduce_one();
    assert_contour(&reducer);
    reducer.reduce_one();
    assert_contour(&reducer);
    reducer.reduce_one();
    assert_contour(&reducer);
    reducer.reduce_one();
    assert_contour(&reducer);
    reducer.reduce_one();
    assert_contour(&reducer);
}

#[test]
fn fuzzer6() {
    let term = Debruijn::from_str("(λ λ 1) 99 λ (λ λ 1 3) 99 99").unwrap();
    let mut reducer = Reducer::new(&term);
    assert_contour(&reducer);
    reducer.reduce_one();
    assert_contour(&reducer);
    reducer.reduce_one();
    assert_contour(&reducer);
    reducer.reduce_one();
    assert_contour(&reducer);
    reducer.reduce_one();
    assert_contour(&reducer);
    reducer.reduce_one();
    assert_contour(&reducer);
    reducer.reduce_one();
    assert_contour(&reducer);
    reducer.reduce_one();
    assert_contour(&reducer);
}

#[test]
fn fuzzer7() {
    let term = Debruijn::from_str("(λ 1 1) (λ 1) 11").unwrap();
    let mut reducer = Reducer::new(&term);
    assert_contour(&reducer);
    reducer.reduce_one();
    assert_contour(&reducer);
    reducer.reduce_one();
    assert_contour(&reducer);
    reducer.reduce_one();
    assert_contour(&reducer);
    reducer.reduce_one();
    assert_contour(&reducer);
    reducer.reduce_one();
    assert_contour(&reducer);
    reducer.reduce_one();
    assert_contour(&reducer);
    reducer.reduce_one();
    assert_contour(&reducer);
}

#[test]
fn fuzzer8() {
    let term = Debruijn::from_str("λ (λ λ 2 1) (λ λ 2)").unwrap();
    let mut reducer = Reducer::new(&term);
    assert_contour(&reducer);
    reducer.reduce_one();
    assert_contour(&reducer);
    reducer.reduce_one();
    assert_contour(&reducer);
    reducer.reduce_one();
    assert_contour(&reducer);
    reducer.reduce_one();
    assert_contour(&reducer);
    reducer.reduce_one();
    assert_contour(&reducer);
    reducer.reduce_one();
    assert_contour(&reducer);
    reducer.reduce_one();
    assert_contour(&reducer);
}

#[test]
fn usage3() {
    let term = Debruijn::from_str("λ λ λ λ (λ λ 6) 2 1").unwrap();
    let mut reducer = Reducer::new(&term);
    reducer.reduce_one();
    reducer.reduce_one();
    assert_contour(&reducer);
}

#[test]
fn fuzzer9() {
    assert_matches_reference("(λ (λ 255) λ 1) 10");
}

#[test]
fn fuzzer10() {
    assert_matches_reference("λ λ λ 1 ((λ 1) ((λ 2) (λ 2))) 3");
}

#[test]
fn fuzzer11() {
    assert_matches_reference("λ (λ 257 (1 1)) λ λ (λ 3) 2");
}

#[test]
fn contour_fuzzer1() {
    run_contour_testcase("λ (λ 61) 1");
}

#[test]
fn contour_fuzzer2() {
    run_contour_testcase("(λ 1) λ 1");
}

#[test]
fn contour_fuzzer3() {
    run_contour_testcase("λ λ (λ 2 512) 2");
}

#[test]
fn reduce_reaches_identity() {
    let term = Debruijn::from_str("(λ 1) λ 1").unwrap();
    let (result, steps) = reduce(&term, 10);
    assert_eq!(steps, 1);
    match result {
        ReductionResult::NormalForm(t) => assert_eq!(t, Debruijn::from_str("λ 1").unwrap()),
        _ => panic!("expected a normal form"),
    }
}

#[test]
fn reduce_normal_form_takes_no_step() {
    let term = Debruijn::from_str("λ λ 2 1").unwrap();
    let (result, steps) = reduce(&term, 10);
    assert_eq!(steps, 0);
    match result {
        ReductionResult::NormalForm(t) => assert_eq!(t, term),
        _ => panic!("expected a normal form"),
    }
}

#[test]
fn reduce_omega_reaches_limit() {
    let term = Debruijn::from_str("(λ 1 1) (λ 1 1)").unwrap();
    let (result, steps) = reduce(&term, 5);
    assert_eq!(steps, 5);
    assert!(matches!(result, ReductionResult::MaxReductionsReached));
    assert_eq!(result.to_string(), "Max Reductions Reached");
}

#[test]
fn reduce_zero_limit() {
    let term = Debruijn::from_str("(λ 1) λ 1").unwrap();
    let (result, steps) = reduce(&term, 0);
    assert_eq!(steps, 0);
    assert!(matches!(result, ReductionResult::MaxReductionsReached));
}

#[test]
fn reduce_one_reports_normal_form() {
    let term = Debruijn::from_str("λ 1").unwrap();
    let mut reducer = Reducer::new(&term);
    let result = reducer.reduce_one().unwrap();
    assert_eq!(result.to_string(), "Normal Form: λ 1");
}

#[test]
fn reduce_one_contracts_first_redex() {
    let term = Debruijn::from_str("(λ 1) ((λ 1) λ 1)").unwrap();
    let mut reducer = Reducer::new(&term);
    assert!(reducer.reduce_one().is_none());
    assert_contour(&reducer);
    assert!(reducer.reduce_one().is_none());
    let result = reducer.reduce_one().unwrap();
    assert_eq!(result.to_string(), "Normal Form: λ 1");
}

#[test]
fn layout_fits_accepts_parsed_terms() {
    let term = Debruijn::from_str("λ (λ 1 1) 99").unwrap();
    assert!(lambda_beavers::reduce::layout_fits(&term));
}

#[test]
fn layout_fits_rejects_index_zero() {
    assert!(!lambda_beavers::reduce::layout_fits(&Debruijn::Index(0)));
}

#[test]
fn layout_fits_rejects_tall_free_variable() {
    let tall = Debruijn::Index(u32::MAX as usize + 1);
    assert!(!lambda_beavers::reduce::layout_fits(&tall));
}

#[test]
fn reduce_one_takes_the_reference_step() {
    let text = "(λ λ 2 1) ((λ 1) λ 1) λ 1";
    let term = Debruijn::from_str(text).unwrap();
    let mut reducer = Reducer::new(&term);
    let mut expected = term.clone();
    for _ in 0..3 {
        assert!(reducer.reduce_one().is_none());
        reference::reduce(&mut expected, 1);
        let actual = lambda_beavers::flat_tree::unflatten(&reducer.tree);
        assert_eq!(actual, expected, "expected {}, got {}", expected.to_string(), actual.to_string());
        assert_contour(&reducer);
    }
}

#[test]
fn reducer_lays_out_afresh_after_each_contraction() {
    let term = Debruijn::from_str("(λ 1 1) λ 1").unwrap();
    let mut reducer = Reducer::new(&term);
    assert_eq!(reducer.total_gc, 0);
    assert!(reducer.reduce_one().is_none());
    assert_eq!(reducer.total_gc, 1);
    assert_eq!(reducer.tree.garbage_count, 0);
}

#[test]
fn reduce_at_contracts_the_chosen_redex() {
    let term = Debruijn::from_str("(λ 1) ((λ 1) λ 1)").unwrap();
    let mut reducer = Reducer::new(&term);
    let redexes = reducer.redexes().unwrap();
    assert_eq!(redexes.len(), 2);
    assert!(reducer.reduce_at(1));
    let expected = Debruijn::from_str("(λ 1) λ 1").unwrap();
    assert_eq!(lambda_beavers::flat_tree::unflatten(&reducer.tree), expected);
    assert!(!reducer.reduce_at(5));
    assert_eq!(lambda_beavers::flat_tree::unflatten(&reducer.tree), expected);
}
