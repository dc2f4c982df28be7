use lambda_beavers::debruijn::Debruijn;
use lambda_beavers::debruijn_inner::{substitute_arg_into_body_mut, DebruijnNode, FlatRoot, RedexMut};

fn term(s: &str) -> Debruijn {
    Debruijn::from_str(s).unwrap()
}

fn compile(s: &str) -> FlatRoot {
    FlatRoot::from_debruijn(&term(s))
}

#[test]
fn flattening_trivial_idx() {
    // The index 0 is built directly: the text "0" is not a term the parser accepts.
    let original = Debruijn::Index(0);
    let actual = FlatRoot::from_debruijn(&original);
    let expected = FlatRoot { backing: vec![DebruijnNode::Index(0)], root: 0 };
    assert_eq!(actual, expected)
}

#[test]
fn flattening_trivial_abs() {
    let actual = compile("λ 1");
    let expected = FlatRoot {
        backing: vec![DebruijnNode::Abstraction { body: 1, usage: 1 }, DebruijnNode::Index(1)],
        root: 0,
    };
    assert_eq!(actual, expected)
}

#[test]
fn flattening_trivial_abs_2() {
    let actual = compile("λ λ 1");
    let expected = FlatRoot {
        backing: vec![
            DebruijnNode::Abstraction { body: 1, usage: 0 },
            DebruijnNode::Abstraction { body: 2, usage: 1 },
            DebruijnNode::Index(1),
        ],
        root: 0,
    };
    assert_eq!(actual, expected)
}

#[test]
fn flattening_trivial_app() {
    let actual = compile("1 2");
    let expected = FlatRoot {
        backing: vec![
            DebruijnNode::Application { func: 1, arg: 2 },
            DebruijnNode::Index(1),
            DebruijnNode::Index(2),
        ],
        root: 0,
    };
    assert_eq!(actual, expected)
}

#[test]
fn flattening_trivial_app_2() {
    let actual = compile("(1 2) (3 4)");
    let expected = FlatRoot {
        backing: vec![
            DebruijnNode::Application { func: 1, arg: 4 },
            DebruijnNode::Application { func: 2, arg: 3 },
            DebruijnNode::Index(1),
            DebruijnNode::Index(2),
            DebruijnNode::Application { func: 5, arg: 6 },
            DebruijnNode::Index(3),
            DebruijnNode::Index(4),
        ],
        root: 0,
    };
    assert_eq!(actual, expected)
}

#[test]
fn debruijn_inner_round_trip() {
    let original = term("(λ λ λ 3 1 (2 1)) ((λ λ 2) (λ λ λ 3 1 (2 1))) λ λ 2");
    let flat = FlatRoot::from_debruijn(&original);
    let roundtripped = flat.to_debruijn();
    assert_eq!(original, roundtripped, "Expected {}, got {}", original.to_string(), roundtripped.to_string());
}

fn check_reduce(input: &str, usage: usize, expected: &str) {
    let mut root = compile(input);
    let redex = RedexMut::try_get(&root, None, 0).unwrap();
    assert_eq!(redex.usage, usage);
    substitute_arg_into_body_mut(&mut root, redex);
    let actual = root.to_debruijn();
    let expected = compile(expected).to_debruijn();
    assert_eq!(actual, expected, "Expected {}, got {}", expected.to_string(), actual.to_string());
}

#[test]
fn debruijn_inner_usage_zero() {
    check_reduce("(λ 2) (λ 50)", 0, "1");
}

#[test]
fn debruijn_inner_usage_one() {
    check_reduce("(λ 1) (λ 50)", 1, "λ 50");
}

#[test]
fn debruijn_inner_body_is_leaf() {
    check_reduce("(λ 1) (1 2 3 4)", 1, "1 2 3 4");
}

#[test]
fn debruijn_inner_body_is_not_leaf() {
    check_reduce("(λ λ 2) (1 2 3 4)", 1, "λ 2 3 4 5");
}

#[test]
fn debruijn_inner_usage_many() {
    check_reduce("(λ 1 λ 2 λ 3 λ 4) 100", 4, "100 λ 101 λ 102 λ 103");
}

#[test]
fn debruijn_inner_reduce_under_an_abstraction() {
    // λ ((λ 1 1) 2): the redex is the body of the outer abstraction, whose usage is recomputed.
    let mut root = compile("λ (λ 1 1) 2");
    let app = match root.backing[root.root] {
        DebruijnNode::Abstraction { body, .. } => body,
        _ => panic!("expected an abstraction"),
    };
    let redex = RedexMut::try_get(&root, Some(lambda_beavers::debruijn_inner::Parent::Body(root.root)), app).unwrap();
    substitute_arg_into_body_mut(&mut root, redex);
    assert_eq!(root.to_debruijn(), term("λ 2 2"));
    match root.backing[root.root] {
        DebruijnNode::Abstraction { usage, .. } => assert_eq!(usage, 0),
        _ => panic!("expected an abstraction"),
    }
}

#[test]
fn debruijn_inner_layout_is_preorder() {
    let root = compile("(λ 1 2) 3");
    let expected = vec![
        DebruijnNode::Application { func: 1, arg: 5 },
        DebruijnNode::Abstraction { body: 2, usage: 1 },
        DebruijnNode::Application { func: 3, arg: 4 },
        DebruijnNode::Index(1),
        DebruijnNode::Index(2),
        DebruijnNode::Index(3),
    ];
    assert_eq!(root.backing, expected);
    assert_eq!(root.root, 0);
}
