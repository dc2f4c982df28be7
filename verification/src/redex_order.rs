//! The order in which a flat de Bruijn tree lists its redexes: the first one listed is the
//! one that leftmost-outermost reduction contracts.
use vstd::prelude::*;

use crate::debruijn::Debruijn;
use crate::debruijn_flat::{
    has_redex, is_tree, lemma_contraction_is_beta, lemma_reach_basics, lemma_reduced_away, lemma_tree_within,
    lemma_view_counts, node_view, reach, redex_at, redexes_spec, reduced_view, within, BackingIndex, DebruijnNode,
    EdgeWithParent, FlatTree, RedexMut,
};
use crate::reference::{is_normal, lemma_step_none_iff_normal, step, step_ok};

verus! {

/// Redexes are listed from `i` exactly when one is reached from it, and the first one listed
/// is reached from it.
pub proof fn lemma_listed_reached(b: Seq<DebruijnNode>, i: int, edge: EdgeWithParent, depth: nat, fuel: nat)
    requires
        i <= usize::MAX,
    ensures
        redexes_spec(b, i, edge, depth, fuel).len() > 0 <==> has_redex(b, i, fuel),
        redexes_spec(b, i, edge, depth, fuel).len() > 0 ==> reach(b, i, fuel).contains(
            redexes_spec(b, i, edge, depth, fuel)[0].app_index.0 as int,
        ),
    decreases fuel,
{
    lemma_reach_basics(b, i, fuel);
    if fuel > 0 && 0 <= i < b.len() {
        let me = BackingIndex(i as usize);
        match b[i] {
            DebruijnNode::Index(_) => {},
            DebruijnNode::Abstraction(abs) => {
                lemma_listed_reached(b, abs.body.0 as int, EdgeWithParent::AbsToBody(me), depth + 1, (fuel - 1) as nat);
            },
            DebruijnNode::Application(app) => {
                let f1 = (fuel - 1) as nat;
                lemma_listed_reached(b, app.func.0 as int, EdgeWithParent::AppToFunc(me), depth, f1);
                lemma_listed_reached(b, app.arg.0 as int, EdgeWithParent::AppToArg(me), depth, f1);
                let rf = redexes_spec(b, app.func.0 as int, EdgeWithParent::AppToFunc(me), depth, f1);
                let ra = redexes_spec(b, app.arg.0 as int, EdgeWithParent::AppToArg(me), depth, f1);
                assert(((i as usize) as int) == i);
                if redex_at(b, i) {
                } else {
                    let s = redexes_spec(b, i, edge, depth, fuel);
                    assert(s == Seq::<RedexMut>::empty() + rf + ra);
                    assert(s =~= rf + ra);
                    if rf.len() > 0 {
                        assert(s[0] == rf[0]);
                    } else if ra.len() > 0 {
                        assert(s[0] == ra[0]);
                    }
                }
            },
        }
    }
}

/// More fuel lists the same redexes from a node whose subtree is within the vector.
pub proof fn lemma_listed_fuel(b: Seq<DebruijnNode>, i: int, e: EdgeWithParent, d: nat, f1: nat, f2: nat)
    requires
        within(b, i, 0, b.len() as int, f1),
        f1 <= f2,
    ensures
        redexes_spec(b, i, e, d, f2) == redexes_spec(b, i, e, d, f1),
    decreases f1,
{
    match b[i] {
        DebruijnNode::Abstraction(abs) => {
            lemma_listed_fuel(b, abs.body.0 as int, EdgeWithParent::AbsToBody(BackingIndex(i as usize)), d + 1, (f1 - 1) as nat, (f2 - 1) as nat);
        },
        DebruijnNode::Application(app) => {
            lemma_listed_fuel(b, app.func.0 as int, EdgeWithParent::AppToFunc(BackingIndex(i as usize)), d, (f1 - 1) as nat, (f2 - 1) as nat);
            lemma_listed_fuel(b, app.arg.0 as int, EdgeWithParent::AppToArg(BackingIndex(i as usize)), d, (f1 - 1) as nat, (f2 - 1) as nat);
        },
        _ => {},
    }
}

/// Contracting the first redex listed from `i` takes the leftmost-outermost step of its term,
/// where that step stays within `usize`.
pub proof fn lemma_first_listed_is_step(
    b: Seq<DebruijnNode>,
    i: int,
    edge: EdgeWithParent,
    depth: nat,
    chain: Seq<BackingIndex>,
    fuel: nat,
)
    requires
        i <= usize::MAX,
        is_tree(b, i, fuel),
        node_view(b, i, chain, fuel) is Some,
        redexes_spec(b, i, edge, depth, fuel).len() > 0,
        step_ok(node_view(b, i, chain, fuel)->0),
    ensures
        step(node_view(b, i, chain, fuel)->0) == reduced_view(
            b,
            i,
            chain,
            fuel,
            redexes_spec(b, i, edge, depth, fuel)[0].app_index.0 as int,
        ),
    decreases fuel,
{
    let p = redexes_spec(b, i, edge, depth, fuel)[0].app_index.0 as int;
    let me = BackingIndex(i as usize);
    assert(((i as usize) as int) == i);
    match b[i] {
        DebruijnNode::Abstraction(abs) => {
            let bi = abs.body.0 as int;
            let f1 = (fuel - 1) as nat;
            lemma_listed_reached(b, bi, EdgeWithParent::AbsToBody(me), depth + 1, f1);
            lemma_reach_basics(b, bi, f1);
            assert(reach(b, bi, f1).contains(p));
            lemma_first_listed_is_step(b, bi, EdgeWithParent::AbsToBody(me), depth + 1, chain.push(me), f1);
        },
        DebruijnNode::Application(app) => {
            let fi = app.func.0 as int;
            let ai = app.arg.0 as int;
            let f1 = (fuel - 1) as nat;
            let rf = redexes_spec(b, fi, EdgeWithParent::AppToFunc(me), depth, f1);
            let ra = redexes_spec(b, ai, EdgeWithParent::AppToArg(me), depth, f1);
            let tf = node_view(b, fi, chain, f1)->0;
            let ta = node_view(b, ai, chain, f1)->0;
            lemma_reach_basics(b, fi, f1);
            lemma_reach_basics(b, ai, f1);
            if redex_at(b, i) {
                assert(p == i);
                let fabs = b[fi]->Abstraction_0;
                let tb = node_view(b, fabs.body.0 as int, chain.push(BackingIndex(fi as usize)), (f1 - 1) as nat)->0;
                assert(tf == Debruijn::Abstraction { body: Box::new(tb) });
                lemma_contraction_is_beta(tb, ta);
            } else {
                assert(!(b[fi] is Abstraction));
                assert(!(tf is Abstraction));
                let s = redexes_spec(b, i, edge, depth, fuel);
                assert(s == Seq::<RedexMut>::empty() + rf + ra);
                assert(s =~= rf + ra);
                lemma_listed_reached(b, fi, EdgeWithParent::AppToFunc(me), depth, f1);
                lemma_listed_reached(b, ai, EdgeWithParent::AppToArg(me), depth, f1);
                lemma_view_counts(b, fi, chain, f1);
                lemma_step_none_iff_normal(tf);
                if rf.len() > 0 {
                    assert(s[0] == rf[0]);
                    assert(reach(b, fi, f1).contains(p));
                    assert(!reach(b, ai, f1).contains(p));
                    lemma_first_listed_is_step(b, fi, EdgeWithParent::AppToFunc(me), depth, chain, f1);
                    lemma_reduced_away(b, ai, chain, f1, p);
                } else {
                    assert(s[0] == ra[0]);
                    assert(reach(b, ai, f1).contains(p));
                    assert(!reach(b, fi, f1).contains(p));
                    lemma_first_listed_is_step(b, ai, EdgeWithParent::AppToArg(me), depth, chain, f1);
                    lemma_reduced_away(b, fi, chain, f1, p);
                }
            }
        },
        _ => {},
    }
}

/// The redexes that `get_redexes` lists for a well-formed tree are in leftmost-outermost
/// order: there are some exactly when the term is not in normal form, and contracting the
/// first of them takes the reference reduction step of the term, wherever that step stays
/// within `usize`.
pub proof fn lemma_first_redex_is_step(t: FlatTree)
    requires
        t.well_formed(),
    ensures
        redexes_spec(t.backing@, t.root.0 as int, EdgeWithParent::IntoRoot, 0, t.fuel()).len() > 0 <==> !is_normal(
            t.term(),
        ),
        redexes_spec(t.backing@, t.root.0 as int, EdgeWithParent::IntoRoot, 0, t.fuel()).len() > 0 && step_ok(t.term())
            ==> step(t.term()) == Some(
            t.reduced(redexes_spec(t.backing@, t.root.0 as int, EdgeWithParent::IntoRoot, 0, t.fuel())[0]),
        ),
{
    let b = t.backing@;
    let r0 = t.root.0 as int;
    let ff = t.tree_fuel();
    let g = t.fuel();
    assert(is_tree(b, r0, ff) && node_view(b, r0, Seq::empty(), ff) is Some);
    t.lemma_term_fuel(ff);
    lemma_view_counts(b, r0, Seq::empty(), g);
    lemma_view_counts(b, r0, Seq::empty(), ff);
    lemma_tree_within(b, r0, ff);
    if g <= ff {
        lemma_listed_fuel(b, r0, EdgeWithParent::IntoRoot, 0, g, ff);
    } else {
        lemma_listed_fuel(b, r0, EdgeWithParent::IntoRoot, 0, ff, g);
    }
    lemma_listed_reached(b, r0, EdgeWithParent::IntoRoot, 0, ff);
    if redexes_spec(b, r0, EdgeWithParent::IntoRoot, 0, ff).len() > 0 && step_ok(t.term()) {
        lemma_first_listed_is_step(b, r0, EdgeWithParent::IntoRoot, 0, Seq::empty(), ff);
        lemma_step_none_iff_normal(t.term());
    }
}

/// The positions reached from `i` within `fuel` steps, in the order a walk visits them: a node
/// before its parts, a function before its argument.
pub open spec fn visit_order(b: Seq<DebruijnNode>, i: int, fuel: nat) -> Seq<int>
    decreases fuel,
{
    if fuel == 0 || i < 0 || i >= b.len() {
        Seq::empty()
    } else {
        match b[i] {
            DebruijnNode::Index(_) => seq![i],
            DebruijnNode::Abstraction(abs) => seq![i] + visit_order(b, abs.body.0 as int, (fuel - 1) as nat),
            DebruijnNode::Application(app) => seq![i] + visit_order(b, app.func.0 as int, (fuel - 1) as nat)
                + visit_order(b, app.arg.0 as int, (fuel - 1) as nat),
        }
    }
}

/// The positions of the applications of a list of redexes, in order.
pub open spec fn app_positions(rs: Seq<RedexMut>) -> Seq<int> {
    rs.map_values(|r: RedexMut| r.app_index.0 as int)
}

proof fn lemma_app_positions_add(a: Seq<RedexMut>, c: Seq<RedexMut>)
    ensures
        app_positions(a + c) == app_positions(a) + app_positions(c),
{
    assert(app_positions(a + c) =~= app_positions(a) + app_positions(c));
}

proof fn lemma_filter_one(k: int, b: Seq<DebruijnNode>)
    ensures
        seq![k].filter(|x: int| redex_at(b, x)) == if redex_at(b, k) {
            seq![k]
        } else {
            Seq::<int>::empty()
        },
{
    reveal_with_fuel(Seq::filter, 2);
    assert(seq![k].drop_last() =~= Seq::<int>::empty());
}

/// The redexes are listed in the order a walk visits their applications: the redexes listed
/// from `i` are at the positions visited from `i` that are applications of an abstraction,
/// in the same order.
pub proof fn lemma_listed_in_visit_order(b: Seq<DebruijnNode>, i: int, edge: EdgeWithParent, depth: nat, fuel: nat)
    requires
        i <= usize::MAX,
    ensures
        app_positions(redexes_spec(b, i, edge, depth, fuel)) == visit_order(b, i, fuel).filter(|x: int| redex_at(b, x)),
    decreases fuel,
{
    let p = |x: int| redex_at(b, x);
    if fuel == 0 || i < 0 || i >= b.len() {
        reveal_with_fuel(Seq::filter, 1);
        assert(app_positions(Seq::<RedexMut>::empty()) =~= Seq::<int>::empty());
    } else {
        let me = BackingIndex(i as usize);
        assert(((i as usize) as int) == i);
        lemma_filter_one(i, b);
        match b[i] {
            DebruijnNode::Index(_) => {
                assert(app_positions(Seq::<RedexMut>::empty()) =~= Seq::<int>::empty());
            },
            DebruijnNode::Abstraction(abs) => {
                let f1 = (fuel - 1) as nat;
                lemma_listed_in_visit_order(b, abs.body.0 as int, EdgeWithParent::AbsToBody(me), depth + 1, f1);
                Seq::filter_distributes_over_add(seq![i], visit_order(b, abs.body.0 as int, f1), p);
                assert(seq![i].filter(p) + visit_order(b, abs.body.0 as int, f1).filter(p) =~= visit_order(
                    b,
                    abs.body.0 as int,
                    f1,
                ).filter(p));
            },
            DebruijnNode::Application(app) => {
                let f1 = (fuel - 1) as nat;
                let fi = app.func.0 as int;
                let ai = app.arg.0 as int;
                lemma_listed_in_visit_order(b, fi, EdgeWithParent::AppToFunc(me), depth, f1);
                lemma_listed_in_visit_order(b, ai, EdgeWithParent::AppToArg(me), depth, f1);
                let here = match crate::debruijn_flat::redex_spec(b, depth as usize, edge, me) {
                    Some(r) => seq![r],
                    None => Seq::<RedexMut>::empty(),
                };
                let rf = redexes_spec(b, fi, EdgeWithParent::AppToFunc(me), depth, f1);
                let ra = redexes_spec(b, ai, EdgeWithParent::AppToArg(me), depth, f1);
                lemma_app_positions_add(here + rf, ra);
                lemma_app_positions_add(here, rf);
                assert(app_positions(here) =~= seq![i].filter(p));
                let vf = visit_order(b, fi, f1);
                let va = visit_order(b, ai, f1);
                Seq::filter_distributes_over_add(seq![i] + vf, va, p);
                Seq::filter_distributes_over_add(seq![i], vf, p);
            },
        }
    }
}

/// The redexes that `get_redexes` lists for a tree are at its applications of an abstraction,
/// in the order a walk from the root visits them.
pub proof fn lemma_get_redexes_order(t: FlatTree)
    ensures
        app_positions(redexes_spec(t.backing@, t.root.0 as int, EdgeWithParent::IntoRoot, 0, t.fuel())) == visit_order(
            t.backing@,
            t.root.0 as int,
            t.fuel(),
        ).filter(|x: int| redex_at(t.backing@, x)),
{
    lemma_listed_in_visit_order(t.backing@, t.root.0 as int, EdgeWithParent::IntoRoot, 0, t.fuel());
}

} // verus!
