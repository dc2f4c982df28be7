use lambda_beavers::debruijn::Debruijn;
use lambda_beavers::flat_tree::{flatten, BackingIndex};
use lambda_beavers::interactive::print_highlighted;

#[test]
fn print_highlighted_marks_the_chosen_application() {
    let tree = flatten(&Debruijn::from_str("(λ 1) 2").unwrap());
    let text = print_highlighted(&tree, tree.root);
    assert_eq!(text, "\x1b[46m(λ 1)\x1b[0m \x1b[42;4m2\x1b[0m");
}

#[test]
fn print_highlighted_without_a_match_prints_the_term() {
    let term = Debruijn::from_str("λ (λ 1) 1 2").unwrap();
    let tree = flatten(&term);
    let text = print_highlighted(&tree, BackingIndex(u32::MAX));
    assert_eq!(text, term.to_string());
}

#[test]
fn explorer_goes_back_to_the_term_before_a_contraction() {
    let start = lambda_beavers::debruijn::Debruijn::from_str("λ (λ 1 1) 2").unwrap();
    let mut explorer = lambda_beavers::interactive::Explorer::new(&start);
    assert!(!explorer.back());
    assert!(explorer.reduce(0));
    assert_eq!(explorer.history.len(), 1);
    assert_eq!(
        lambda_beavers::flat_tree::unflatten(&explorer.reducer.tree),
        lambda_beavers::debruijn::Debruijn::from_str("λ 2 2").unwrap()
    );
    assert!(!explorer.reduce(5));
    assert_eq!(explorer.history.len(), 1);
    assert!(explorer.back());
    assert!(explorer.history.is_empty());
    assert_eq!(lambda_beavers::flat_tree::unflatten(&explorer.reducer.tree), start);
}
