use lambda_beavers::debruijn::Debruijn;
use lambda_beavers::debruijn_flat::{
    beta_reduce, Abstraction, Application, BackingIndex, Binding, DebruijnNode, EdgeWithParent, FlatTree, RedexMut,
};

fn term(s: &str) -> Debruijn {
    Debruijn::from_str(s).unwrap()
}

fn compile(s: &str) -> FlatTree {
    FlatTree::from_debruijn(&term(s))
}

fn redex_at_root(tree: &FlatTree) -> RedexMut {
    RedexMut::try_get(tree, 0, EdgeWithParent::IntoRoot, tree.root).unwrap()
}

#[test]
fn debruijn_flat_round_trip() {
    let original = term("(λ λ λ 3 1 (2 1)) ((λ λ 2) (λ λ λ 3 1 (2 1))) λ λ 2");
    let flat = FlatTree::from_debruijn(&original);
    let roundtripped = flat.to_debruijn();
    assert_eq!(original, roundtripped, "Expected {}, got {}", original.to_string(), roundtripped.to_string());
}

#[test]
fn debruijn_flat_round_trip_normalized() {
    let original = term("(((λ (λ ((2 1) 2))) (λ (λ 2))) (λ (λ 1)))");
    let original2 = term("(λ λ 2 1 2) (λ λ 2) λ λ 1");
    assert_eq!(original, original2);
    let flat = FlatTree::from_debruijn(&original).normalized();
    let roundtripped = flat.to_debruijn();
    assert_eq!(original, roundtripped, "Expected {}, got {}", original.to_string(), roundtripped.to_string());
}

fn check_reduce(input: &str, usage: usize, expected: &str) {
    let mut tree = compile(input);
    let redex = redex_at_root(&tree);
    assert_eq!(redex.body_usage, usage);
    beta_reduce(&mut tree, redex);
    let actual = tree.to_debruijn();
    let expected = compile(expected).to_debruijn();
    assert_eq!(actual, expected, "Expected {}, got {}", expected.to_string(), actual.to_string());
}

#[test]
fn debruijn_flat_usage_zero() {
    check_reduce("(λ 2) (λ 50)", 0, "1");
}

#[test]
fn debruijn_flat_usage_one() {
    check_reduce("(λ 1) (λ 50)", 1, "λ 50");
}

#[test]
fn debruijn_flat_body_is_leaf() {
    check_reduce("(λ 1) (1 2 3 4)", 1, "1 2 3 4");
}

#[test]
fn debruijn_flat_body_is_not_leaf() {
    check_reduce("(λ λ 2) (1 2 3 4)", 1, "λ 2 3 4 5");
}

#[test]
fn debruijn_flat_usage_many() {
    check_reduce("(λ 1 λ 2 λ 3 λ 4) 100", 4, "100 λ 101 λ 102 λ 103");
}

#[test]
fn debruijn_flat_reduce_inner_redex_updates_usages() {
    // λ x. (λ y. y y) x: contracting the inner redex copies the argument `x` once more.
    let mut tree = compile("λ (λ 1 1) 1");
    assert!(tree.check_usage().is_ok());
    let redexes = tree.get_redexes();
    assert_eq!(redexes.len(), 1);
    let redex = redexes[0];
    assert_eq!(redex.debruijn_depth, 1);
    assert_eq!(redex.body_usage, 2);
    beta_reduce(&mut tree, redex);
    assert_eq!(tree.to_debruijn(), term("λ 1 1"));
    assert!(tree.check_usage().is_ok());
    assert!(tree.is_bnf());
}

#[test]
fn debruijn_flat_reduce_drops_unused_argument() {
    // λ x. (λ y. x) x: the argument is dropped, so `x` loses one use.
    let mut tree = compile("λ (λ 2) 1");
    let redex = tree.get_redexes()[0];
    assert_eq!(redex.body_usage, 0);
    beta_reduce(&mut tree, redex);
    assert_eq!(tree.to_debruijn(), term("λ 1"));
    assert!(tree.check_usage().is_ok());
}

#[test]
fn debruijn_flat_normalized_keeps_usages() {
    let tree = compile("(λ λ 2 1 2) (λ λ 2) λ λ 1 (λ 1 2 1)");
    assert!(tree.check_usage().is_ok());
    let normal = tree.normalized();
    assert!(normal.check_usage().is_ok());
    assert_eq!(normal.backing.len(), 22);
    assert_eq!(normal.to_debruijn(), tree.to_debruijn());
}

#[test]
fn debruijn_flat_normalized_fresh_tree_is_unchanged() {
    let tree = compile("(λ λ 2 1 2) (λ λ 2) λ λ 1 (λ 1 2 1)");
    let normal = tree.normalized();
    assert_eq!(normal.backing, tree.backing);
    assert_eq!(normal.root, tree.root);
}

#[test]
fn debruijn_flat_layout_is_preorder() {
    let tree = compile("(λ 1 2) 3");
    let expected = vec![
        DebruijnNode::Abstraction(Abstraction { body: BackingIndex(3), usage: 1 }),
        DebruijnNode::Index(Binding::Bound(BackingIndex(0))),
        DebruijnNode::Index(Binding::Free(1)),
        DebruijnNode::Application(Application { func: BackingIndex(1), arg: BackingIndex(2) }),
        DebruijnNode::Index(Binding::Free(3)),
        DebruijnNode::Application(Application { func: BackingIndex(0), arg: BackingIndex(4) }),
    ];
    assert_eq!(tree.backing, expected);
    assert_eq!(tree.root, BackingIndex(5));
}

#[test]
fn debruijn_flat_reduce_adjusts_the_enclosing_usage() {
    let mut tree = compile("λ (λ 1 1 1) 1");
    let redex = tree.get_redexes()[0];
    assert_eq!(redex.body_usage, 3);
    beta_reduce(&mut tree, redex);
    match tree.backing[tree.root.0] {
        DebruijnNode::Abstraction(abs) => assert_eq!(abs.usage, 3),
        other => panic!("expected an abstraction, got {:?}", other),
    }
    assert!(tree.check_usage().is_ok());
}
