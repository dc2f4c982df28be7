//! The usage recorded in each abstraction of a flat de Bruijn tree: how it relates to the
//! occurrences of the abstraction's variable in the term, and what keeps it.
use vstd::prelude::*;

use crate::debruijn::Debruijn;
use crate::debruijn_flat::{
    bound_count, chain_pos, is_tree, lemma_chain_pos, lemma_chain_pos_found, lemma_reach_basics, lemma_view_counts,
    node_view, occurrences, reach, redexes_spec, usage_error, usages_right, within, BackingIndex, Binding, DebruijnNode, EdgeWithParent, FlatTree, RedexMut,
};

verus! {

/// The variables bound to the abstraction at position `p` of the chain, seen from `i`, are
/// the occurrences of the index that names it there.
pub proof fn lemma_count_occurrences(b: Seq<DebruijnNode>, i: int, c: Seq<BackingIndex>, p: int, fuel: nat)
    requires
        node_view(b, i, c, fuel) is Some,
        0 <= p < c.len(),
        chain_pos(c, c[p]) == p,
        c.len() + fuel <= usize::MAX,
    ensures
        bound_count(b, c[p], i, fuel) == occurrences(node_view(b, i, c, fuel)->0, (c.len() - p) as nat),
    decreases fuel,
{
    match b[i] {
        DebruijnNode::Index(binding) => {
            match binding {
                Binding::Bound(x) => {
                    lemma_chain_pos_found(c, x);
                    let q = chain_pos(c, x);
                    assert(((c.len() - q) as usize) as int == c.len() - q);
                    if x == c[p] {
                        assert(q == p);
                    } else if q == p {
                        assert(c[q] == x);
                    }
                },
                Binding::Free(_) => {},
            }
        },
        DebruijnNode::Abstraction(abs) => {
            let c2 = c.push(BackingIndex(i as usize));
            assert(c2[p] == c[p]);
            assert(chain_pos(c2, c2[p]) == p) by {
                lemma_chain_pos_prefix(c, BackingIndex(i as usize), c[p], p);
            }
            lemma_count_occurrences(b, abs.body.0 as int, c2, p, (fuel - 1) as nat);
        },
        DebruijnNode::Application(app) => {
            lemma_count_occurrences(b, app.func.0 as int, c, p, (fuel - 1) as nat);
            lemma_count_occurrences(b, app.arg.0 as int, c, p, (fuel - 1) as nat);
        },
    }
}

/// In a tree whose recorded usages all match the counts, each usage is also the number of
/// occurrences of its variable in the term of the body.
pub proof fn lemma_usages_right(b: Seq<DebruijnNode>, i: int, c: Seq<BackingIndex>, fuel: nat)
    requires
        is_tree(b, i, fuel),
        node_view(b, i, c, fuel) is Some,
        usage_error(b, i, fuel) is None,
        forall|j: int| 0 <= j < c.len() ==> !#[trigger] reach(b, i, fuel).contains(c[j].0 as int),
        b.len() <= usize::MAX,
        c.len() + fuel <= usize::MAX,
    ensures
        usages_right(b, i, c, fuel),
    decreases fuel,
{
    lemma_reach_basics(b, i, fuel);
    match b[i] {
        DebruijnNode::Index(_) => {},
        DebruijnNode::Abstraction(abs) => {
            let x = BackingIndex(i as usize);
            let c2 = c.push(x);
            let bi = abs.body.0 as int;
            let f = (fuel - 1) as nat;
            assert forall|j: int| 0 <= j < c.len() implies c2[j] != x by {
                assert(c2[j] == c[j]);
                assert(!reach(b, i, fuel).contains(c[j].0 as int));
            }
            lemma_chain_pos(c2, x, c.len() as int);
            lemma_count_occurrences(b, bi, c2, c.len() as int, f);
            assert(reach(b, i, fuel) == reach(b, bi, f).insert(i));
            assert forall|j: int| 0 <= j < c2.len() implies !#[trigger] reach(b, bi, f).contains(c2[j].0 as int) by {
                if j < c.len() {
                    assert(c2[j] == c[j]);
                    if reach(b, bi, f).contains(c[j].0 as int) {
                        assert(reach(b, i, fuel).contains(c[j].0 as int));
                    }
                }
            }
            lemma_usages_right(b, bi, c2, f);
        },
        DebruijnNode::Application(app) => {
            let f = (fuel - 1) as nat;
            assert forall|j: int| 0 <= j < c.len() implies !#[trigger] reach(b, app.func.0 as int, f).contains(c[j].0 as int) by {
                if reach(b, app.func.0 as int, f).contains(c[j].0 as int) {
                    assert(reach(b, i, fuel).contains(c[j].0 as int));
                }
            }
            assert forall|j: int| 0 <= j < c.len() implies !#[trigger] reach(b, app.arg.0 as int, f).contains(c[j].0 as int) by {
                if reach(b, app.arg.0 as int, f).contains(c[j].0 as int) {
                    assert(reach(b, i, fuel).contains(c[j].0 as int));
                }
            }
            lemma_usages_right(b, app.func.0 as int, c, f);
            lemma_usages_right(b, app.arg.0 as int, c, f);
        },
    }
}

/// A tree stays a tree, with the same nodes, for any fuel that still reaches all of it.
pub proof fn lemma_tree_less_fuel(b: Seq<DebruijnNode>, i: int, f1: nat, f2: nat)
    requires
        within(b, i, 0, b.len() as int, f1),
        f1 <= f2,
        is_tree(b, i, f2),
    ensures
        is_tree(b, i, f1),
        reach(b, i, f1) == reach(b, i, f2),
    decreases f1,
{
    match b[i] {
        DebruijnNode::Index(_) => {},
        DebruijnNode::Abstraction(abs) => {
            lemma_tree_less_fuel(b, abs.body.0 as int, (f1 - 1) as nat, (f2 - 1) as nat);
        },
        DebruijnNode::Application(app) => {
            lemma_tree_less_fuel(b, app.func.0 as int, (f1 - 1) as nat, (f2 - 1) as nat);
            lemma_tree_less_fuel(b, app.arg.0 as int, (f1 - 1) as nat, (f2 - 1) as nat);
        },
    }
}

/// A first position stays first when the chain grows at the end.
proof fn lemma_chain_pos_prefix(c: Seq<BackingIndex>, y: BackingIndex, x: BackingIndex, p: int)
    requires
        0 <= p < c.len(),
        c[p] == x,
        chain_pos(c, x) == p,
    ensures
        chain_pos(c.push(y), x) == p,
    decreases c.len(),
{
    if p > 0 {
        assert(c[0] != x);
        assert(c.push(y).drop_first() =~= c.drop_first().push(y));
        lemma_chain_pos_prefix(c.drop_first(), y, x, p - 1);
    }
}

/// Two vectors that agree on `[lo, hi)` find the same usages and counts from a node whose
/// subtree lies there.
pub proof fn lemma_usage_frame(b1: Seq<DebruijnNode>, b2: Seq<DebruijnNode>, i: int, lo: int, hi: int, fuel: nat)
    requires
        within(b1, i, lo, hi, fuel),
        hi <= b2.len(),
        forall|k: int| lo <= k < hi ==> b2[k] == b1[k],
    ensures
        usage_error(b2, i, fuel) == usage_error(b1, i, fuel),
        forall|t: BackingIndex| #[trigger] bound_count(b2, t, i, fuel) == bound_count(b1, t, i, fuel),
    decreases fuel,
{
    assert(b2[i] == b1[i]);
    match b1[i] {
        DebruijnNode::Index(_) => {},
        DebruijnNode::Abstraction(abs) => {
            lemma_usage_frame(b1, b2, abs.body.0 as int, lo, hi, (fuel - 1) as nat);
            assert forall|t: BackingIndex| #[trigger] bound_count(b2, t, i, fuel) == bound_count(b1, t, i, fuel) by {
                assert(bound_count(b2, t, abs.body.0 as int, (fuel - 1) as nat) == bound_count(b1, t, abs.body.0 as int, (fuel - 1) as nat));
            }
        },
        DebruijnNode::Application(app) => {
            lemma_usage_frame(b1, b2, app.func.0 as int, lo, hi, (fuel - 1) as nat);
            lemma_usage_frame(b1, b2, app.arg.0 as int, lo, hi, (fuel - 1) as nat);
            assert forall|t: BackingIndex| #[trigger] bound_count(b2, t, i, fuel) == bound_count(b1, t, i, fuel) by {
                assert(bound_count(b2, t, app.func.0 as int, (fuel - 1) as nat) == bound_count(b1, t, app.func.0 as int, (fuel - 1) as nat));
                assert(bound_count(b2, t, app.arg.0 as int, (fuel - 1) as nat) == bound_count(b1, t, app.arg.0 as int, (fuel - 1) as nat));
            }
        },
    }
}

/// More fuel finds the same usages and counts from a node whose subtree is in range.
pub proof fn lemma_usage_fuel(b: Seq<DebruijnNode>, i: int, f1: nat, f2: nat)
    requires
        within(b, i, 0, b.len() as int, f1),
        f1 <= f2,
    ensures
        usage_error(b, i, f2) == usage_error(b, i, f1),
        forall|t: BackingIndex| #[trigger] bound_count(b, t, i, f2) == bound_count(b, t, i, f1),
    decreases f1,
{
    match b[i] {
        DebruijnNode::Index(_) => {},
        DebruijnNode::Abstraction(abs) => {
            lemma_usage_fuel(b, abs.body.0 as int, (f1 - 1) as nat, (f2 - 1) as nat);
            assert forall|t: BackingIndex| #[trigger] bound_count(b, t, i, f2) == bound_count(b, t, i, f1) by {
                assert(bound_count(b, t, abs.body.0 as int, (f2 - 1) as nat) == bound_count(b, t, abs.body.0 as int, (f1 - 1) as nat));
            }
        },
        DebruijnNode::Application(app) => {
            lemma_usage_fuel(b, app.func.0 as int, (f1 - 1) as nat, (f2 - 1) as nat);
            lemma_usage_fuel(b, app.arg.0 as int, (f1 - 1) as nat, (f2 - 1) as nat);
            assert forall|t: BackingIndex| #[trigger] bound_count(b, t, i, f2) == bound_count(b, t, i, f1) by {
                assert(bound_count(b, t, app.func.0 as int, (f2 - 1) as nat) == bound_count(b, t, app.func.0 as int, (f1 - 1) as nat));
                assert(bound_count(b, t, app.arg.0 as int, (f2 - 1) as nat) == bound_count(b, t, app.arg.0 as int, (f1 - 1) as nat));
            }
        },
    }
}

/// An increasing chain of positions below `n` is at most `n` long.
pub proof fn lemma_chain_len(c: Seq<BackingIndex>, n: int)
    requires
        forall|j: int, k: int| 0 <= j < k < c.len() ==> c[j].0 < c[k].0,
        forall|j: int| 0 <= j < c.len() ==> c[j].0 < n,
        n >= 0,
    ensures
        c.len() <= n,
    decreases c.len(),
{
    if c.len() > 0 {
        let d = c.drop_last();
        let l = c.len() - 1;
        assert(c[l] == c.last());
        assert(c[l].0 < n);
        assert forall|j: int| 0 <= j < d.len() implies d[j].0 < c.last().0 by {
            assert(d[j] == c[j]);
        }
        assert forall|j: int, k: int| 0 <= j < k < d.len() implies d[j].0 < d[k].0 by {
            assert(d[j] == c[j]);
            assert(d[k] == c[k]);
        }
        lemma_chain_len(d, c.last().0 as int);
    }
}

/// A redex listed from `i`, where every usage is right, records the number of variables of its
/// abstraction, counted with some fuel within which its body is in range.
proof fn lemma_listed_usage_at(
    b: Seq<DebruijnNode>,
    i: int,
    edge: EdgeWithParent,
    depth: nat,
    fuel: nat,
    r: RedexMut,
) -> (fb: nat)
    requires
        within(b, i, 0, b.len() as int, fuel),
        usage_error(b, i, fuel) is None,
        redexes_spec(b, i, edge, depth, fuel).contains(r),
        b.len() <= usize::MAX,
    ensures
        fb <= fuel,
        within(b, r.body_index.0 as int, 0, b.len() as int, fb),
        r.body_usage == bound_count(b, r.func_index, r.body_index.0 as int, fb),
    decreases fuel,
{
    match b[i] {
        DebruijnNode::Index(_) => {
            assert(false);
            0
        },
        DebruijnNode::Abstraction(abs) => {
            let f = lemma_listed_usage_at(
                b,
                abs.body.0 as int,
                EdgeWithParent::AbsToBody(BackingIndex(i as usize)),
                depth + 1,
                (fuel - 1) as nat,
                r,
            );
            f
        },
        DebruijnNode::Application(app) => {
            let here = match crate::debruijn_flat::redex_spec(b, depth as usize, edge, BackingIndex(i as usize)) {
                Some(x) => seq![x],
                None => Seq::empty(),
            };
            let ef = EdgeWithParent::AppToFunc(BackingIndex(i as usize));
            let ea = EdgeWithParent::AppToArg(BackingIndex(i as usize));
            let rf = redexes_spec(b, app.func.0 as int, ef, depth, (fuel - 1) as nat);
            let ra = redexes_spec(b, app.arg.0 as int, ea, depth, (fuel - 1) as nat);
            assert(redexes_spec(b, i, edge, depth, fuel) == here + rf + ra);
            let k = choose|k: int| 0 <= k < (here + rf + ra).len() && (here + rf + ra)[k] == r;
            if k < here.len() {
                assert(here[k] == r);
                let fi = app.func.0 as int;
                assert(((i as usize) as int) == i);
                assert(b[fi] is Abstraction);
                let fa = b[fi]->Abstraction_0;
                assert(usage_error(b, fi, (fuel - 1) as nat) is None);
                assert(r.body_usage == fa.usage);
                assert(r.func_index == BackingIndex(fi as usize));
                assert(within(b, fi, 0, b.len() as int, (fuel - 1) as nat));
                assert(within(b, fa.body.0 as int, 0, b.len() as int, (fuel - 2) as nat));
                (fuel - 2) as nat
            } else if k < here.len() + rf.len() {
                assert((here + rf + ra)[k] == rf[k - here.len()]);
                assert(rf.contains(r));
                lemma_listed_usage_at(b, app.func.0 as int, ef, depth, (fuel - 1) as nat, r)
            } else {
                assert((here + rf + ra)[k] == ra[k - here.len() - rf.len()]);
                assert(ra.contains(r));
                match usage_error(b, app.func.0 as int, (fuel - 1) as nat) {
                    Some(_) => {},
                    None => {},
                }
                lemma_listed_usage_at(b, app.arg.0 as int, ea, depth, (fuel - 1) as nat, r)
            }
        },
    }
}

/// In a well-formed flat tree whose usages are all right, a listed redex records the number of
/// variables of its abstraction, as `beta_reduce` requires.
pub proof fn lemma_listed_usage(t: FlatTree, r: RedexMut)
    requires
        t.well_formed(),
        usage_error(t.backing@, t.root.0 as int, t.tree_fuel()) is None,
        t.lists_redex(r),
        t.backing@.len() <= usize::MAX,
    ensures
        r.body_usage == bound_count(t.backing@, r.func_index, r.body_index.0 as int, t.tree_fuel()),
{
    let b = t.backing@;
    let g = t.tree_fuel();
    assert(is_tree(b, t.root.0 as int, g) && node_view(b, t.root.0 as int, Seq::empty(), g) is Some);
    lemma_view_counts(b, t.root.0 as int, Seq::empty(), g);
    let fb = lemma_listed_usage_at(b, t.root.0 as int, EdgeWithParent::IntoRoot, 0, g, r);
    lemma_usage_fuel(b, r.body_index.0 as int, fb, g);
}

} // verus!
