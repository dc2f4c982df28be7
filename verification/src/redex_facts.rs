//! Where a redex lies in a contour `FlatTree`, and the term with it contracted: the view of a
//! tree whose redex was replaced by a subtree holding its contraction.
use vstd::prelude::*;

use crate::beta_reduce::{nest, redex_spec, redexes_spec, RedexMut};
use crate::debruijn::Debruijn;
use crate::debruijn_flat::subst_down;
use crate::flat_tree::{
    binder, binders_kept, first_pos, is_tree, lemma_first_pos_found, lemma_reach_basics, lemma_view_fuel, node_view,
    reach, shape, AbsIndex, Abstraction, AppIndex, Application, BackingIndex, Node, ParentEdge,
};
use crate::subst_facts::{all_abs, bound_count, edge_child, lemma_drop_binder, set_edge};
use crate::tree_facts::{
    chain_avoids, chain_in, chains_disjoint, lemma_reach_keep, lemma_tree_fuel, lemma_tree_within, lemma_view_keep_reach,
};

verus! {

/// The term at `i` under `chain` with the redex at `p` contracted: its body, with the argument
/// substituted for its variable.
pub open spec fn reduced_view(b: Seq<Node>, i: int, chain: Seq<AbsIndex>, fuel: nat, p: int) -> Option<Debruijn>
    decreases fuel,
{
    if fuel == 0 || i < 0 || i >= b.len() {
        None
    } else if i == p {
        match node_view(b, i, chain, fuel) {
            Some(Debruijn::Application { func, arg }) => match *func {
                Debruijn::Abstraction { body } => Some(subst_down(*body, *arg, 1)),
                _ => None,
            },
            _ => None,
        }
    } else {
        match b[i] {
            Node::FreeVar(_) | Node::BoundVar(_) => node_view(b, i, chain, fuel),
            Node::Abs(abs) => match reduced_view(
                b,
                abs.body.0 as int,
                chain.push(AbsIndex(BackingIndex(i as u32))),
                (fuel - 1) as nat,
                p,
            ) {
                Some(t) => Some(Debruijn::Abstraction { body: Box::new(t) }),
                None => None,
            },
            Node::App(app) => match (
                reduced_view(b, app.func.0 as int, chain, (fuel - 1) as nat, p),
                reduced_view(b, app.arg.0 as int, chain, (fuel - 1) as nat, p),
            ) {
                (Some(f), Some(a)) => Some(Debruijn::Application { func: Box::new(f), arg: Box::new(a) }),
                _ => None,
            },
        }
    }
}

/// Where `target` is reached from `i` (itself reached by `edge` under `chain`): the
/// abstractions above it and the edge that leads to it, first found in preorder.
pub open spec fn locate(
    b: Seq<Node>,
    i: int,
    edge: ParentEdge,
    chain: Seq<AbsIndex>,
    fuel: nat,
    target: int,
) -> Option<(Seq<AbsIndex>, ParentEdge)>
    decreases fuel,
{
    if fuel == 0 || i < 0 || i >= b.len() {
        None
    } else if i == target {
        Some((chain, edge))
    } else {
        match b[i] {
            Node::FreeVar(_) | Node::BoundVar(_) => None,
            Node::Abs(abs) => locate(
                b,
                abs.body.0 as int,
                ParentEdge::AbsToBody(AbsIndex(BackingIndex(i as u32))),
                chain.push(AbsIndex(BackingIndex(i as u32))),
                (fuel - 1) as nat,
                target,
            ),
            Node::App(app) => match locate(
                b,
                app.func.0 as int,
                ParentEdge::AppToFunc(AppIndex(BackingIndex(i as u32))),
                chain,
                (fuel - 1) as nat,
                target,
            ) {
                Some(x) => Some(x),
                None => locate(
                    b,
                    app.arg.0 as int,
                    ParentEdge::AppToArg(AppIndex(BackingIndex(i as u32))),
                    chain,
                    (fuel - 1) as nat,
                    target,
                ),
            },
        }
    }
}

/// A target out of reach is not found, and a target found is reached.
pub proof fn lemma_locate_reach(
    b: Seq<Node>,
    i: int,
    edge: ParentEdge,
    chain: Seq<AbsIndex>,
    fuel: nat,
    target: int,
)
    ensures
        locate(b, i, edge, chain, fuel, target) is Some <==> reach(b, i, fuel).contains(target),
    decreases fuel,
{
    lemma_reach_basics(b, i, fuel);
    if fuel > 0 && 0 <= i < b.len() && i != target {
        match b[i] {
            Node::FreeVar(_) => {},
            Node::BoundVar(_) => {},
            Node::Abs(abs) => {
                lemma_locate_reach(b, abs.body.0 as int, ParentEdge::AbsToBody(AbsIndex(BackingIndex(i as u32))), chain.push(AbsIndex(BackingIndex(i as u32))), (fuel - 1) as nat, target);
            },
            Node::App(app) => {
                lemma_locate_reach(b, app.func.0 as int, ParentEdge::AppToFunc(AppIndex(BackingIndex(i as u32))), chain, (fuel - 1) as nat, target);
                lemma_locate_reach(b, app.arg.0 as int, ParentEdge::AppToArg(AppIndex(BackingIndex(i as u32))), chain, (fuel - 1) as nat, target);
            },
        }
    }
}

/// Without the target in reach, the contracted view is the view.
pub proof fn lemma_reduced_away(b: Seq<Node>, i: int, chain: Seq<AbsIndex>, fuel: nat, p: int)
    requires
        !reach(b, i, fuel).contains(p),
    ensures
        reduced_view(b, i, chain, fuel, p) == node_view(b, i, chain, fuel),
    decreases fuel,
{
    lemma_reach_basics(b, i, fuel);
    if fuel > 0 && 0 <= i < b.len() {
        match b[i] {
            Node::FreeVar(_) => {},
            Node::BoundVar(_) => {},
            Node::Abs(abs) => {
                lemma_reduced_away(b, abs.body.0 as int, chain.push(AbsIndex(BackingIndex(i as u32))), (fuel - 1) as nat, p);
            },
            Node::App(app) => {
                lemma_reduced_away(b, app.func.0 as int, chain, (fuel - 1) as nat, p);
                lemma_reduced_away(b, app.arg.0 as int, chain, (fuel - 1) as nat, p);
            },
        }
    }
}

/// What holds where a target is found in a tree: its view under the abstractions found above
/// it, which lie outside its subtree, and the edge that leads to it.
pub proof fn lemma_locate_facts(
    b: Seq<Node>,
    i: int,
    edge: ParentEdge,
    chain: Seq<AbsIndex>,
    fuel: nat,
    target: int,
)
    requires
        b.len() <= u32::MAX,
        is_tree(b, i, fuel),
        node_view(b, i, chain, fuel) is Some,
        chain_avoids(chain, reach(b, i, fuel)),
        chain_in(chain, 0, b.len() as int),
        locate(b, i, edge, chain, fuel, target) is Some,
    ensures
        ({
            let (c, pe) = locate(b, i, edge, chain, fuel, target)->0;
            &&& is_tree(b, target, fuel)
            &&& node_view(b, target, c, fuel) is Some
            &&& forall|m: int| #[trigger] reach(b, target, fuel).contains(m) ==> reach(b, i, fuel).contains(m)
            &&& chain_avoids(c, reach(b, target, fuel))
            &&& chain_in(c, 0, b.len() as int)
            &&& c.len() + nest(b, target, fuel) <= chain.len() + nest(b, i, fuel)
            &&& (target == i ==> pe == edge && c == chain)
            &&& (target != i ==> !(pe is IntoRoot) && reach(b, i, fuel).contains((pe.parent_spec()->0).0 as int)
                && !reach(b, target, fuel).contains((pe.parent_spec()->0).0 as int)
                && edge_child(b, BackingIndex(0), pe) == Some(BackingIndex(target as u32)))
        }),
    decreases fuel,
{
    lemma_reach_basics(b, i, fuel);
    lemma_tree_within(b, i, fuel);
    if i == target {
        lemma_tree_fuel(b, i, fuel, fuel);
    } else {
        let me = AbsIndex(BackingIndex(i as u32));
    let ma = AppIndex(BackingIndex(i as u32));
        match b[i] {
            Node::FreeVar(_) => {},
            Node::BoundVar(_) => {},
            Node::Abs(abs) => {
                let c = abs.body.0 as int;
                let ch2 = chain.push(me);
                lemma_reach_basics(b, c, (fuel - 1) as nat);
                assert(chain_avoids(ch2, reach(b, c, (fuel - 1) as nat))) by {
                    assert forall|j: int| 0 <= j < ch2.len() implies !reach(b, c, (fuel - 1) as nat).contains(#[trigger] ch2[j].0.0 as int) by {
                        if j < chain.len() {
                            assert(ch2[j] == chain[j]);
                            assert(!reach(b, i, fuel).contains(chain[j].0.0 as int));
                        }
                    }
                }
                assert(chain_in(ch2, 0, b.len() as int)) by {
                    assert forall|j: int| 0 <= j < ch2.len() implies 0 <= #[trigger] ch2[j].0.0 < b.len() by {
                        if j < chain.len() { assert(ch2[j] == chain[j]); }
                    }
                }
                lemma_locate_facts(b, c, ParentEdge::AbsToBody(me), ch2, (fuel - 1) as nat, target);
                let (cc, pe) = locate(b, i, edge, chain, fuel, target)->0;
                lemma_tree_fuel(b, target, (fuel - 1) as nat, fuel);
                lemma_view_fuel(b, target, cc, (fuel - 1) as nat, fuel);
                lemma_tree_fuel(b, c, (fuel - 1) as nat, fuel);
                if target == c {
                    assert(edge_child(b, BackingIndex(0), pe) == Some(BackingIndex(target as u32)));
                }
            },
            Node::App(app) => {
                let f = app.func.0 as int;
                let a = app.arg.0 as int;
                lemma_reach_basics(b, f, (fuel - 1) as nat);
                lemma_reach_basics(b, a, (fuel - 1) as nat);
                assert(chain_avoids(chain, reach(b, f, (fuel - 1) as nat))) by {
                    assert forall|j: int| 0 <= j < chain.len() implies !reach(b, f, (fuel - 1) as nat).contains(#[trigger] chain[j].0.0 as int) by {
                        assert(!reach(b, i, fuel).contains(chain[j].0.0 as int));
                    }
                }
                assert(chain_avoids(chain, reach(b, a, (fuel - 1) as nat))) by {
                    assert forall|j: int| 0 <= j < chain.len() implies !reach(b, a, (fuel - 1) as nat).contains(#[trigger] chain[j].0.0 as int) by {
                        assert(!reach(b, i, fuel).contains(chain[j].0.0 as int));
                    }
                }
                let (cc, pe) = locate(b, i, edge, chain, fuel, target)->0;
                if locate(b, f, ParentEdge::AppToFunc(ma), chain, (fuel - 1) as nat, target) is Some {
                    lemma_locate_facts(b, f, ParentEdge::AppToFunc(ma), chain, (fuel - 1) as nat, target);
                    if target == f {
                        assert(edge_child(b, BackingIndex(0), pe) == Some(BackingIndex(target as u32)));
                    }
                } else {
                    lemma_locate_facts(b, a, ParentEdge::AppToArg(ma), chain, (fuel - 1) as nat, target);
                    if target == a {
                        assert(edge_child(b, BackingIndex(0), pe) == Some(BackingIndex(target as u32)));
                    }
                }
                lemma_tree_fuel(b, target, (fuel - 1) as nat, fuel);
                lemma_view_fuel(b, target, cc, (fuel - 1) as nat, fuel);
                lemma_tree_fuel(b, f, (fuel - 1) as nat, fuel);
                lemma_tree_fuel(b, a, (fuel - 1) as nat, fuel);
            },
        }
    }
}

/// Replacing the subtree at `p` (reached from `i` by the edge `pe` under the abstractions `c`)
/// with a subtree whose view is the contracted redex gives the contracted view from `i`, and
/// keeps the nodes a tree.
pub proof fn lemma_outer(
    b0: Seq<Node>,
    b: Seq<Node>,
    i: int,
    edge: ParentEdge,
    chain: Seq<AbsIndex>,
    fuel: nat,
    p: int,
    new_body: BackingIndex,
    fr: nat,
)
    requires
        b0.len() <= u32::MAX,
        is_tree(b0, i, fuel),
        node_view(b0, i, chain, fuel) is Some,
        chain_avoids(chain, reach(b0, i, fuel)),
        chain_in(chain, 0, b0.len() as int),
        locate(b0, i, edge, chain, fuel, p) is Some,
        p != i,
        binders_kept(b0, b),
        ({
            let (c, pe) = locate(b0, i, edge, chain, fuel, p)->0;
            let pp = (pe.parent_spec()->0).0 as int;
            &&& forall|k: int| #[trigger] reach(b0, i, fuel).contains(k) && !reach(b0, p, fuel).contains(k) && k != pp
                ==> k < b.len() && shape(b[k]) == shape(b0[k])
            &&& pp < b.len()
            &&& shape(b[pp]) == shape(set_edge(b0, pe, new_body)[pp])
            &&& reduced_view(b0, p, c, fuel, p) is Some
            &&& node_view(b, new_body.0 as int, c, fr) == reduced_view(b0, p, c, fuel, p)
            &&& is_tree(b, new_body.0 as int, fr)
            &&& forall|m: int| #[trigger] reach(b, new_body.0 as int, fr).contains(m) ==> !(reach(b0, i, fuel).contains(m)
                && !reach(b0, p, fuel).contains(m))
        }),
    ensures
        node_view(b, i, chain, fuel + fr) == reduced_view(b0, i, chain, fuel, p),
        reduced_view(b0, i, chain, fuel, p) is Some,
        is_tree(b, i, fuel + fr),
        forall|m: int| #[trigger] reach(b, i, fuel + fr).contains(m) ==> (reach(b0, i, fuel).contains(m)
            && !reach(b0, p, fuel).contains(m)) || reach(b, new_body.0 as int, fr).contains(m),
    decreases fuel,
{
    let (c, pe) = locate(b0, i, edge, chain, fuel, p)->0;
    let pp = (pe.parent_spec()->0).0 as int;
    let nb = new_body.0 as int;
    let fb = (fuel + fr - 1) as nat;
    lemma_reach_basics(b0, i, fuel);
    lemma_reach_basics(b, nb, fr);
    lemma_tree_within(b0, i, fuel);
    lemma_tree_within(b, nb, fr);
    lemma_locate_facts(b0, i, edge, chain, fuel, p);
    lemma_locate_reach(b0, i, edge, chain, fuel, p);
    let me = AbsIndex(BackingIndex(i as u32));
    let ma = AppIndex(BackingIndex(i as u32));
    assert(reach(b0, i, fuel).contains(i));
    assert(me.0.0 as int == i);
    match b0[i] {
        Node::FreeVar(_) => {},
            Node::BoundVar(_) => {},
        Node::Abs(abs) => {
            let cb = abs.body.0 as int;
            let ch2 = chain.push(me);
            let f1 = (fuel - 1) as nat;
            lemma_reach_basics(b0, cb, f1);
            assert(node_view(b0, cb, ch2, f1) is Some);
            assert(chain_avoids(ch2, reach(b0, cb, f1))) by {
                assert forall|j: int| 0 <= j < ch2.len() implies !reach(b0, cb, f1).contains(#[trigger] ch2[j].0.0 as int) by {
                    if j < chain.len() {
                        assert(ch2[j] == chain[j]);
                        assert(!reach(b0, i, fuel).contains(chain[j].0.0 as int));
                    }
                }
            }
            assert(chain_in(ch2, 0, b0.len() as int)) by {
                assert forall|j: int| 0 <= j < ch2.len() implies 0 <= #[trigger] ch2[j].0.0 < b0.len() by {
                    if j < chain.len() { assert(ch2[j] == chain[j]); }
                }
            }
            lemma_locate_reach(b0, cb, ParentEdge::AbsToBody(me), ch2, f1, p);
            if cb == p {
                assert(pp == i);
                assert(c == ch2);
                assert(node_view(b0, p, c, f1) is Some);
                lemma_view_fuel(b0, p, c, f1, fuel);
                assert(reduced_view(b0, p, c, f1, p) == reduced_view(b0, p, c, fuel, p));
                lemma_view_fuel(b, nb, c, fr, fb);
                lemma_tree_fuel(b, nb, fr, fb);
                assert(!reach(b, nb, fr).contains(i));
                assert(shape(b[i]) == shape(Node::Abs(Abstraction { body: new_body, entrance: abs.entrance })));
            } else {
                lemma_locate_facts(b0, cb, ParentEdge::AbsToBody(me), ch2, f1, p);
                assert(locate(b0, cb, ParentEdge::AbsToBody(me), ch2, f1, p) == locate(b0, i, edge, chain, fuel, p));
                lemma_tree_fuel(b0, p, f1, fuel);
                assert(node_view(b0, p, c, f1) is Some);
                lemma_view_fuel(b0, p, c, f1, fuel);
                assert(reduced_view(b0, p, c, f1, p) == reduced_view(b0, p, c, fuel, p));
                assert(forall|k: int| #[trigger] reach(b0, cb, f1).contains(k) ==> reach(b0, i, fuel).contains(k));
                assert(!reach(b0, p, fuel).contains(i)) by {
                    if reach(b0, p, fuel).contains(i) {
                        assert(reach(b0, cb, f1).contains(i));
                    }
                }
                lemma_outer(b0, b, cb, ParentEdge::AbsToBody(me), ch2, f1, p, new_body, fr);
                assert(i != pp);
                assert(shape(b[i]) == shape(b0[i]));
                assert(!reach(b, cb, fb).contains(i));
            }
        },
        Node::App(app) => {
            let fi = app.func.0 as int;
            let ai = app.arg.0 as int;
            let f1 = (fuel - 1) as nat;
            lemma_reach_basics(b0, fi, f1);
            lemma_reach_basics(b0, ai, f1);
            assert(chain_avoids(chain, reach(b0, fi, f1))) by {
                assert forall|j: int| 0 <= j < chain.len() implies !reach(b0, fi, f1).contains(#[trigger] chain[j].0.0 as int) by {
                    assert(!reach(b0, i, fuel).contains(chain[j].0.0 as int));
                }
            }
            assert(chain_avoids(chain, reach(b0, ai, f1))) by {
                assert forall|j: int| 0 <= j < chain.len() implies !reach(b0, ai, f1).contains(#[trigger] chain[j].0.0 as int) by {
                    assert(!reach(b0, i, fuel).contains(chain[j].0.0 as int));
                }
            }
            let ef = ParentEdge::AppToFunc(ma);
            let ea = ParentEdge::AppToArg(ma);
            lemma_locate_reach(b0, fi, ef, chain, f1, p);
            lemma_locate_reach(b0, ai, ea, chain, f1, p);
            if reach(b0, fi, f1).contains(p) {
                // the redex is on the function side; the argument side is kept
                assert(!reach(b0, ai, f1).contains(p));
                lemma_locate_facts(b0, fi, ef, chain, f1, p);
                assert(locate(b0, fi, ef, chain, f1, p) == locate(b0, i, edge, chain, fuel, p));
                lemma_tree_fuel(b0, p, f1, fuel);
                assert forall|m: int| #[trigger] reach(b0, ai, f1).contains(m) implies 0 <= m < b.len() && shape(b[m]) == shape(b0[m]) by {
                    assert(reach(b0, i, fuel).contains(m));
                    assert(!reach(b0, fi, f1).contains(m));
                    assert(!reach(b0, p, fuel).contains(m)) by {
                        if reach(b0, p, fuel).contains(m) {
                            assert(reach(b0, fi, f1).contains(m));
                        }
                    }
                    assert(m != pp) by {
                        if fi != p {
                            assert(reach(b0, fi, f1).contains(pp));
                        }
                    }
                }
                lemma_tree_within(b0, ai, f1);
                lemma_reach_keep(b0, b, ai, f1);
                lemma_view_keep_reach(b0, b, ai, f1, chain);
                lemma_tree_fuel(b, ai, f1, fb);
                lemma_view_fuel(b, ai, chain, f1, fb);
                lemma_reduced_away(b0, ai, chain, f1, p);
                if fi == p {
                    assert(pp == i);
                    assert(c == chain);
                    lemma_view_fuel(b0, p, c, f1, fuel);
                    assert(reduced_view(b0, p, c, f1, p) == reduced_view(b0, p, c, fuel, p));
                    lemma_view_fuel(b, nb, c, fr, fb);
                    lemma_tree_fuel(b, nb, fr, fb);
                    assert(shape(b[i]) == shape(Node::App(Application { func: new_body, arg: app.arg })));
                    assert(reach(b, nb, fb).disjoint(reach(b, ai, fb))) by {
                        assert forall|m: int| reach(b, nb, fb).contains(m) implies !reach(b, ai, fb).contains(m) by {
                            if reach(b0, ai, f1).contains(m) {
                                assert(reach(b0, i, fuel).contains(m));
                                assert(!reach(b0, p, fuel).contains(m)) by {
                                    if reach(b0, p, fuel).contains(m) {
                                        assert(reach(b0, fi, f1).contains(m));
                                    }
                                }
                            }
                        }
                    }
                } else {
                    assert(node_view(b0, p, c, f1) is Some);
                    lemma_view_fuel(b0, p, c, f1, fuel);
                    assert(reduced_view(b0, p, c, f1, p) == reduced_view(b0, p, c, fuel, p));
                    assert(forall|k: int| #[trigger] reach(b0, fi, f1).contains(k) ==> reach(b0, i, fuel).contains(k));
                    lemma_outer(b0, b, fi, ef, chain, f1, p, new_body, fr);
                    assert(i != pp);
                    assert(shape(b[i]) == shape(b0[i]));
                    assert(reach(b, fi, fb).disjoint(reach(b, ai, fb))) by {
                        assert forall|m: int| reach(b, fi, fb).contains(m) implies !reach(b, ai, fb).contains(m) by {
                            if reach(b0, ai, f1).contains(m) {
                                assert(reach(b0, i, fuel).contains(m));
                                assert(!reach(b0, p, fuel).contains(m)) by {
                                    if reach(b0, p, fuel).contains(m) {
                                        assert(reach(b0, fi, f1).contains(m));
                                    }
                                }
                            }
                        }
                    }
                }
            } else {
                // the redex is on the argument side; the function side is kept
                assert(reach(b0, ai, f1).contains(p));
                assert(locate(b0, fi, ef, chain, f1, p) is None);
                lemma_locate_facts(b0, ai, ea, chain, f1, p);
                assert(locate(b0, ai, ea, chain, f1, p) == locate(b0, i, edge, chain, fuel, p));
                lemma_tree_fuel(b0, p, f1, fuel);
                assert forall|m: int| #[trigger] reach(b0, fi, f1).contains(m) implies 0 <= m < b.len() && shape(b[m]) == shape(b0[m]) by {
                    assert(reach(b0, i, fuel).contains(m));
                    assert(!reach(b0, ai, f1).contains(m));
                    assert(!reach(b0, p, fuel).contains(m)) by {
                        if reach(b0, p, fuel).contains(m) {
                            assert(reach(b0, ai, f1).contains(m));
                        }
                    }
                    assert(m != pp) by {
                        if ai != p {
                            assert(reach(b0, ai, f1).contains(pp));
                        }
                    }
                }
                lemma_tree_within(b0, fi, f1);
                lemma_reach_keep(b0, b, fi, f1);
                lemma_view_keep_reach(b0, b, fi, f1, chain);
                lemma_tree_fuel(b, fi, f1, fb);
                lemma_view_fuel(b, fi, chain, f1, fb);
                lemma_reduced_away(b0, fi, chain, f1, p);
                if ai == p {
                    assert(pp == i);
                    assert(c == chain);
                    lemma_view_fuel(b0, p, c, f1, fuel);
                    assert(reduced_view(b0, p, c, f1, p) == reduced_view(b0, p, c, fuel, p));
                    lemma_view_fuel(b, nb, c, fr, fb);
                    lemma_tree_fuel(b, nb, fr, fb);
                    assert(shape(b[i]) == shape(Node::App(Application { func: app.func, arg: new_body })));
                    assert(reach(b, fi, fb).disjoint(reach(b, nb, fb))) by {
                        assert forall|m: int| reach(b, fi, fb).contains(m) implies !reach(b, nb, fb).contains(m) by {
                            assert(reach(b0, i, fuel).contains(m));
                            assert(!reach(b0, p, fuel).contains(m)) by {
                                if reach(b0, p, fuel).contains(m) {
                                    assert(reach(b0, ai, f1).contains(m));
                                }
                            }
                        }
                    }
                } else {
                    assert(node_view(b0, p, c, f1) is Some);
                    lemma_view_fuel(b0, p, c, f1, fuel);
                    assert(reduced_view(b0, p, c, f1, p) == reduced_view(b0, p, c, fuel, p));
                    assert(forall|k: int| #[trigger] reach(b0, ai, f1).contains(k) ==> reach(b0, i, fuel).contains(k));
                    lemma_outer(b0, b, ai, ea, chain, f1, p, new_body, fr);
                    assert(i != pp);
                    assert(shape(b[i]) == shape(b0[i]));
                    assert(reach(b, fi, fb).disjoint(reach(b, ai, fb))) by {
                        assert forall|m: int| reach(b, fi, fb).contains(m) implies !reach(b, ai, fb).contains(m) by {
                            assert(reach(b0, i, fuel).contains(m));
                            assert(!reach(b0, p, fuel).contains(m)) by {
                                if reach(b0, p, fuel).contains(m) {
                                    assert(reach(b0, ai, f1).contains(m));
                                }
                            }
                        }
                    }
                }
            }
        },
    }
}

/// A redex listed from a tree is found where it was listed, under as many abstractions as it
/// records.
pub proof fn lemma_redex_located(
    b: Seq<Node>,
    i: int,
    edge: ParentEdge,
    chain: Seq<AbsIndex>,
    fuel: nat,
    r: RedexMut,
)
    requires
        b.len() <= u32::MAX,
        chain.len() + nest(b, i, fuel) <= usize::MAX,
        is_tree(b, i, fuel),
        redexes_spec(b, i, edge, chain.len(), fuel).contains(r),
    ensures
        locate(b, i, edge, chain, fuel, r.app_index.0 as int) is Some,
        (locate(b, i, edge, chain, fuel, r.app_index.0 as int)->0).1 == r.parent_to_app,
        (locate(b, i, edge, chain, fuel, r.app_index.0 as int)->0).0.len() == r.debruijn_depth,
        redex_spec(b, r.debruijn_depth, r.parent_to_app, r.app_index) == Some(r),
    decreases fuel,
{
    lemma_reach_basics(b, i, fuel);
    let me = AbsIndex(BackingIndex(i as u32));
    let ma = AppIndex(BackingIndex(i as u32));
    match b[i] {
        Node::FreeVar(_) => {},
            Node::BoundVar(_) => {},
        Node::Abs(abs) => {
            let cb = abs.body.0 as int;
            let ch2 = chain.push(me);
            assert(ch2.len() == chain.len() + 1);
            lemma_redex_located(b, cb, ParentEdge::AbsToBody(me), ch2, (fuel - 1) as nat, r);
            lemma_locate_reach(b, cb, ParentEdge::AbsToBody(me), ch2, (fuel - 1) as nat, r.app_index.0 as int);
            assert(r.app_index.0 as int != i);
        },
        Node::App(app) => {
            let fi = app.func.0 as int;
            let ai = app.arg.0 as int;
            let here = match redex_spec(b, chain.len() as usize, edge, BackingIndex(i as u32)) {
                Some(x) => seq![x],
                None => Seq::<RedexMut>::empty(),
            };
            let rf = redexes_spec(b, fi, ParentEdge::AppToFunc(ma), chain.len(), (fuel - 1) as nat);
            let ra = redexes_spec(b, ai, ParentEdge::AppToArg(ma), chain.len(), (fuel - 1) as nat);
            assert(redexes_spec(b, i, edge, chain.len(), fuel) == here + rf + ra);
            if here.contains(r) {
                assert(r == here[0]);
            } else if rf.contains(r) {
                lemma_redex_located(b, fi, ParentEdge::AppToFunc(ma), chain, (fuel - 1) as nat, r);
                lemma_locate_reach(b, fi, ParentEdge::AppToFunc(ma), chain, (fuel - 1) as nat, r.app_index.0 as int);
                assert(r.app_index.0 as int != i);
            } else {
                assert(ra.contains(r));
                lemma_redex_located(b, ai, ParentEdge::AppToArg(ma), chain, (fuel - 1) as nat, r);
                lemma_locate_reach(b, ai, ParentEdge::AppToArg(ma), chain, (fuel - 1) as nat, r.app_index.0 as int);
                lemma_locate_reach(b, fi, ParentEdge::AppToFunc(ma), chain, (fuel - 1) as nat, r.app_index.0 as int);
                assert(r.app_index.0 as int != i);
            }
        },
    }
}

/// With no variable bound to `f` in the subtree, dropping `f` from the enclosing abstractions
/// gives the contracted view.
pub proof fn lemma_subst_none(
    b: Seq<Node>,
    i: int,
    c: Seq<AbsIndex>,
    f: AbsIndex,
    d: Seq<AbsIndex>,
    fuel: nat,
    ta: Debruijn,
)
    requires
        b.len() <= u32::MAX,
        c.len() + 1 + d.len() + nest(b, i, fuel) <= usize::MAX,
        is_tree(b, i, fuel),
        bound_count(b, f, i, fuel) == 0,
        node_view(b, i, c.push(f) + d, fuel) is Some,
        !c.contains(f),
        !d.contains(f),
        chains_disjoint(d, c),
        chain_avoids(c.push(f) + d, reach(b, i, fuel)),
    ensures
        node_view(b, i, c + d, fuel) == Some(subst_down(node_view(b, i, c.push(f) + d, fuel)->0, ta, d.len() + 1)),
    decreases fuel,
{
    lemma_reach_basics(b, i, fuel);
    let me = AbsIndex(BackingIndex(i as u32));
    let ma = AppIndex(BackingIndex(i as u32));
    assert(reach(b, i, fuel).contains(i));
    match b[i] {
        Node::BoundVar(v) => {
            let x = binder(b, v)->0;
            lemma_drop_binder(c, f, d, x);
            lemma_first_pos_found(c, x);
            lemma_first_pos_found(d, x);
        },
        Node::FreeVar(_) => {},
        Node::Abs(abs) => {
            let cb = abs.body.0 as int;
            let d2 = d.push(me);
            let all = c.push(f) + d;
            lemma_reach_basics(b, cb, (fuel - 1) as nat);
            assert(all.push(me) =~= c.push(f) + d2);
            assert((c + d).push(me) =~= c + d2);
            assert(me.0.0 as int == i);
            assert(!d2.contains(f)) by {
                assert(all[c.len() as int] == f);
                assert(!reach(b, i, fuel).contains(f.0.0 as int));
                assert forall|j: int| 0 <= j < d2.len() implies d2[j] != f by {
                    if j < d.len() { assert(d2[j] == d[j]); }
                }
            }
            assert(chains_disjoint(d2, c)) by {
                assert forall|j: int, k: int| 0 <= j < d2.len() && 0 <= k < c.len() implies d2[j] != c[k] by {
                    if j < d.len() {
                        assert(d2[j] == d[j]);
                    } else {
                        assert(all[k] == c[k]);
                        assert(!reach(b, i, fuel).contains(c[k].0.0 as int));
                    }
                }
            }
            assert(chain_avoids(c.push(f) + d2, reach(b, cb, (fuel - 1) as nat))) by {
                let cb2 = c.push(f) + d2;
                assert forall|j: int| 0 <= j < cb2.len() implies !reach(b, cb, (fuel - 1) as nat).contains(#[trigger] cb2[j].0.0 as int) by {
                    if j < all.len() {
                        assert(cb2[j] == all[j]);
                        assert(!reach(b, i, fuel).contains(all[j].0.0 as int));
                    }
                }
            }
            lemma_subst_none(b, cb, c, f, d2, (fuel - 1) as nat, ta);
        },
        Node::App(app) => {
            let fi = app.func.0 as int;
            let ai = app.arg.0 as int;
            let all = c.push(f) + d;
            lemma_reach_basics(b, fi, (fuel - 1) as nat);
            lemma_reach_basics(b, ai, (fuel - 1) as nat);
            assert(chain_avoids(all, reach(b, fi, (fuel - 1) as nat))) by {
                assert forall|j: int| 0 <= j < all.len() implies !reach(b, fi, (fuel - 1) as nat).contains(#[trigger] all[j].0.0 as int) by {
                    assert(!reach(b, i, fuel).contains(all[j].0.0 as int));
                }
            }
            assert(chain_avoids(all, reach(b, ai, (fuel - 1) as nat))) by {
                assert forall|j: int| 0 <= j < all.len() implies !reach(b, ai, (fuel - 1) as nat).contains(#[trigger] all[j].0.0 as int) by {
                    assert(!reach(b, i, fuel).contains(all[j].0.0 as int));
                }
            }
            lemma_subst_none(b, fi, c, f, d, (fuel - 1) as nat, ta);
            lemma_subst_none(b, ai, c, f, d, (fuel - 1) as nat, ta);
        },
    }
}


/// The abstractions found above a target are abstractions.
pub proof fn lemma_locate_abs(
    b: Seq<Node>,
    i: int,
    edge: ParentEdge,
    chain: Seq<AbsIndex>,
    fuel: nat,
    target: int,
)
    requires
        b.len() <= u32::MAX,
        all_abs(b, chain),
        locate(b, i, edge, chain, fuel, target) is Some,
    ensures
        all_abs(b, (locate(b, i, edge, chain, fuel, target)->0).0),
    decreases fuel,
{
    if i != target {
        assert(fuel > 0 && 0 <= i < b.len());
        let me = AbsIndex(BackingIndex(i as u32));
    let ma = AppIndex(BackingIndex(i as u32));
        match b[i] {
            Node::FreeVar(_) => {},
            Node::BoundVar(_) => {},
            Node::Abs(abs) => {
                let ch2 = chain.push(me);
                assert(all_abs(b, ch2)) by {
                    assert forall|j: int| #![trigger ch2[j]] 0 <= j < ch2.len() implies 0 <= ch2[j].0.0 < b.len() && b[ch2[j].0.0 as int] is Abs by {
                        if j < chain.len() {
                            assert(ch2[j] == chain[j]);
                        } else {
                            assert(ch2[j] == me);
                        }
                    }
                }
                lemma_locate_abs(b, abs.body.0 as int, ParentEdge::AbsToBody(me), ch2, (fuel - 1) as nat, target);
            },
            Node::App(app) => {
                if locate(b, app.func.0 as int, ParentEdge::AppToFunc(ma), chain, (fuel - 1) as nat, target) is Some {
                    lemma_locate_abs(b, app.func.0 as int, ParentEdge::AppToFunc(ma), chain, (fuel - 1) as nat, target);
                } else {
                    lemma_locate_abs(b, app.arg.0 as int, ParentEdge::AppToArg(ma), chain, (fuel - 1) as nat, target);
                }
            },
        }
    }
}

} // verus!
