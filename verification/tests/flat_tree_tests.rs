use lambda_beavers::debruijn::Debruijn;
use lambda_beavers::flat_tree::{
    check_contours, flatten, normalize, unflatten, AbsIndex, Abstraction, BackingIndex, BoundVarIndex, BoundVariable,
    ContourError, FlatTree, Node, ParentEdge,
};

#[test]
fn flat_tree_round_trip() {
    let original = Debruijn::from_str("(λ λ λ 3 1 (2 1)) ((λ λ 2) (λ λ λ 3 1 (2 1))) λ λ 2").unwrap();
    let flat = flatten(&original);
    let roundtripped = unflatten(&flat);
    assert_eq!(original, roundtripped);
}

#[test]
fn flat_tree_round_trip_normalized() {
    let original = Debruijn::from_str("(((λ (λ ((2 1) 2))) (λ (λ 2))) (λ (λ 1)))").unwrap();
    let original2 = Debruijn::from_str("(λ λ 2 1 2) (λ λ 2) λ λ 1").unwrap();
    assert_eq!(original, original2);
    let flat = normalize(&flatten(&original));
    let roundtripped = unflatten(&flat);
    assert_eq!(original, roundtripped);
}

#[test]
fn flat_tree_free_variables_round_trip() {
    let original = Debruijn::from_str("λ 3 (λ 1 4) 2").unwrap();
    let flat = flatten(&original);
    assert_eq!(flat.total_count(), 9);
    assert_eq!(unflatten(&flat), original);
}

#[test]
fn flat_tree_normalize_drops_garbage() {
    let original = Debruijn::from_str("λ 1 (λ 2 1)").unwrap();
    let mut flat = flatten(&original);
    let extra = FlatTree::new();
    assert_eq!(extra.total_count(), 0);
    flat.alloc_blank_app();
    let compact = normalize(&flat);
    assert_eq!(compact.total_count(), 7);
    assert_eq!(unflatten(&compact), original);
}

#[test]
fn flat_tree_contours_of_flattened_terms_are_ok() {
    for s in ["λ 1", "λ λ 2 1 (λ 1 3)", "(λ λ λ 3 1 (2 1)) ((λ λ 2) (λ λ λ 3 1 (2 1))) λ λ 2", "1 2"] {
        let tree = flatten(&Debruijn::from_str(s).unwrap());
        assert!(check_contours(&tree).is_ok(), "{}", s);
        let normalized = normalize(&tree);
        assert!(check_contours(&normalized).is_ok(), "{}", s);
    }
}

#[test]
fn flat_tree_contours_detect_a_shared_node() {
    // (λ 1) (λ 1): point the argument at the function, so one node is reached twice.
    let mut tree = flatten(&Debruijn::from_str("(λ 1) (λ 1)").unwrap());
    let root = tree.root;
    let func = match tree.get(root) {
        Node::App(app) => app.func,
        _ => panic!("expected an application"),
    };
    if let Node::App(app) = tree.get_mut(root) {
        app.arg = func;
    }
    match check_contours(&tree) {
        Err(ContourError::LoopDetectedInTree { node }) => assert_eq!(node, func),
        other => panic!("unexpected {:?}", other),
    }
}

#[test]
fn flat_tree_contours_detect_a_missing_parent() {
    let mut tree = flatten(&Debruijn::from_str("λ 1").unwrap());
    let root = tree.root;
    let body = match tree.get(root) {
        Node::Abs(abs) => abs.body,
        _ => panic!("expected an abstraction"),
    };
    if let Node::BoundVar(var) = tree.get_mut(body) {
        var.parent = ParentEdge::IntoRoot;
    }
    match check_contours(&tree) {
        Err(ContourError::MissingParent { .. }) => {},
        other => panic!("unexpected {:?}", other),
    }
}

#[test]
fn flat_tree_contours_detect_an_empty_contour_with_variables() {
    let mut tree = flatten(&Debruijn::from_str("λ 1").unwrap());
    let root = tree.root;
    if let Node::Abs(abs) = tree.get_mut(root) {
        abs.entrance = None;
    }
    match check_contours(&tree) {
        Err(ContourError::AbsIsNoneButHasBoundVars { contour, .. }) => assert_eq!(contour.len(), 1),
        other => panic!("unexpected {:?}", other),
    }
}

#[test]
fn flatten_lays_out_linked_contours() {
    let original = Debruijn::from_str("λ λ (λ 1 2 3) (2 1 1) 5").unwrap();
    let flat = flatten(&original);
    assert!(check_contours(&flat).is_ok());
    assert_eq!(flat.backing.len(), 16);
    assert!(lambda_beavers::flat_tree::check_tree(&flat));
}

#[test]
fn flat_tree_layout_is_preorder() {
    let t = flatten(&Debruijn::from_str("λ λ 2").unwrap());
    assert_eq!(t.root, BackingIndex(0));
    match t.backing[0] {
        Node::Abs(a) => assert_eq!(a.body, BackingIndex(1)),
        _ => panic!("expected an abstraction"),
    }
    match t.backing[1] {
        Node::Abs(a) => assert_eq!(a.body, BackingIndex(2)),
        _ => panic!("expected an abstraction"),
    }
    let v = *t.get_bound_var(BoundVarIndex(BackingIndex(2)));
    assert_eq!(v.parent, ParentEdge::AbsToBody(AbsIndex(BackingIndex(1))));
    assert_eq!(t.get_binding_abs(&v), AbsIndex(BackingIndex(0)));
}

#[test]
fn bnf_check() {
    let term = Debruijn::from_str("(λ 1) λ λ 1").unwrap();
    let tree = flatten(&term);
    assert!(!tree.is_bnf(), "Expected {} to be BNF. Redex: {:?}", term.to_string(), tree.get_redexes());
}

#[test]
fn flat_tree_is_bnf_on_normal_terms() {
    assert!(flatten(&Debruijn::from_str("λ 1").unwrap()).is_bnf());
    assert!(flatten(&Debruijn::from_str("λ λ 2 (1 λ 1)").unwrap()).is_bnf());
    assert!(!flatten(&Debruijn::from_str("λ 1 ((λ 1) 2)").unwrap()).is_bnf());
}

#[test]
fn flat_tree_contours_report_the_unrecorded_contour() {
    let tree = FlatTree {
        backing: vec![
            Node::Abs(Abstraction { body: BackingIndex::new(1), entrance: None }),
            Node::BoundVar(BoundVariable {
                prev: BackingIndex::new(0),
                next: None,
                parent: ParentEdge::AbsToBody(AbsIndex(BackingIndex::new(0))),
            }),
        ],
        root: BackingIndex::new(0),
        garbage_count: 0,
    };
    assert_eq!(
        check_contours(&tree),
        Err(ContourError::AbsIsNoneButHasBoundVars {
            abs: AbsIndex(BackingIndex::new(0)),
            contour: vec![BoundVarIndex(BackingIndex::new(1))],
        })
    );
}
