//! Bounds that make a contraction of a contour tree fit in machine integers: the indices of a
//! laid out term, and the shifts that substituting its argument takes.
use vstd::prelude::*;

use crate::beta_reduce::{nest, redexes_spec, RedexMut};
use crate::debruijn::Debruijn;
use crate::debruijn_flat::{contraction_fits, subst_fits};
use crate::flat_tree::{is_tree, node_view, reach, AbsIndex, AppIndex, BackingIndex, FlatTree, Node, ParentEdge};
use crate::redex_facts::lemma_locate_facts;
use crate::reference::{can_shift, is_normal, lemma_step_none_iff_normal, step, step_ok};
use crate::redex_facts::{lemma_reduced_away, reduced_view};
use crate::tree_facts::lemma_tree_fuel;

verus! {

/// No free variable of `b` is higher than `h`.
pub open spec fn heights_le(b: Seq<Node>, h: int) -> bool {
    forall|k: int| 0 <= k < b.len() && (#[trigger] b[k]) is FreeVar ==> b[k]->FreeVar_0.height <= h
}

/// Every index in `t` is at most `m` plus the number of abstractions around it inside `t`.
pub open spec fn indices_le(t: Debruijn, m: int) -> bool
    decreases t,
{
    match t {
        Debruijn::Index(i) => i <= m,
        Debruijn::Application { func, arg } => indices_le(*func, m) && indices_le(*arg, m),
        Debruijn::Abstraction { body } => indices_le(*body, m + 1),
    }
}

/// Shifting the free variables of `v` by `n` stays within `usize` when its indices and depth
/// leave room for it.
pub proof fn lemma_shift_fits(v: Debruijn, m: int, n: int, cutoff: nat)
    requires
        indices_le(v, m),
        n >= 0,
        m + v.abs_depth() + n <= usize::MAX,
        cutoff + v.abs_depth() < usize::MAX,
    ensures
        can_shift(v, n, cutoff),
    decreases v,
{
    match v {
        Debruijn::Index(_) => {},
        Debruijn::Application { func, arg } => {
            lemma_shift_fits(*func, m, n, cutoff);
            lemma_shift_fits(*arg, m, n, cutoff);
        },
        Debruijn::Abstraction { body } => {
            lemma_shift_fits(*body, m + 1, n, cutoff + 1);
        },
    }
}

/// Substituting `v` for the variable of index `depth` in `body` stays within `usize` when the
/// indices of `v` and the depths of both leave room for it.
pub proof fn lemma_subst_fits(body: Debruijn, v: Debruijn, depth: nat, m: int)
    requires
        indices_le(v, m),
        depth >= 1,
        m + v.abs_depth() + depth + body.abs_depth() <= usize::MAX,
        1 + v.abs_depth() < usize::MAX,
    ensures
        subst_fits(body, v, depth),
    decreases body,
{
    match body {
        Debruijn::Index(i) => {
            if i == depth {
                lemma_shift_fits(v, m, depth - 1, 1);
            }
        },
        Debruijn::Application { func, arg } => {
            lemma_subst_fits(*func, v, depth, m);
            lemma_subst_fits(*arg, v, depth, m);
        },
        Debruijn::Abstraction { body: inner } => {
            lemma_subst_fits(*inner, v, depth + 1, m);
        },
    }
}

/// A variable read from the vector is at most the largest height of a free variable plus the
/// number of abstractions around it.
pub proof fn lemma_view_indices(b: Seq<Node>, i: int, chain: Seq<crate::flat_tree::AbsIndex>, fuel: nat, h: int)
    requires
        node_view(b, i, chain, fuel) is Some,
        heights_le(b, h),
        h >= 0,
    ensures
        indices_le(node_view(b, i, chain, fuel)->0, h + chain.len()),
    decreases fuel,
{
    match b[i] {
        Node::Abs(abs) => {
            let c2 = chain.push(crate::flat_tree::AbsIndex(crate::flat_tree::BackingIndex(i as u32)));
            lemma_view_indices(b, abs.body.0 as int, c2, (fuel - 1) as nat, h);
        },
        Node::App(app) => {
            lemma_view_indices(b, app.func.0 as int, chain, (fuel - 1) as nat, h);
            lemma_view_indices(b, app.arg.0 as int, chain, (fuel - 1) as nat, h);
        },
        Node::BoundVar(v) => {
            let a = crate::flat_tree::binder(b, v)->0;
            let p = crate::flat_tree::first_pos(chain, a);
            lemma_first_pos_bound(chain, a);
            if p >= 0 && chain.len() - p <= usize::MAX {
                assert(((chain.len() - p) as usize) as int == chain.len() - p);
            }
        },
        Node::FreeVar(v) => {
            assert(b[i] is FreeVar);
        },
    }
}

/// A position found in a sequence is inside it.
proof fn lemma_first_pos_bound<T>(s: Seq<T>, x: T)
    ensures
        crate::flat_tree::first_pos(s, x) < s.len(),
    decreases s.len(),
{
    if s.len() > 0 && s[0] != x {
        lemma_first_pos_bound(s.drop_first(), x);
    }
}

/// In a well-formed tree whose free variables are at most `h` high and whose term nests few
/// enough abstractions, contracting a redex it holds fits in machine integers.
pub proof fn lemma_contraction_room(t: FlatTree, r: RedexMut, h: int)
    requires
        t.well_formed(),
        t.holds_redex(r),
        heights_le(t.backing@, h),
        h >= 0,
        h + 2 * t.term().abs_depth() + 2 <= usize::MAX,
    ensures
        contraction_fits(t.redex_term(r)),
        2 * nest(t.backing@, t.root.0 as int, t.tree_fuel()) <= usize::MAX,
        is_tree(t.backing@, r.app_index.0 as int, t.tree_fuel()),
        node_view(t.backing@, r.app_index.0 as int, t.redex_place(r).0, t.tree_fuel()) is Some,
{
    let b = t.backing@;
    let root = t.root.0 as int;
    let f = t.tree_fuel();
    assert(is_tree(b, root, f) && node_view(b, root, Seq::empty(), f) is Some);
    t.lemma_term_fuel(f);
    crate::beta_reduce::lemma_nest_view(b, root, Seq::empty(), f);
    assert(nest(b, root, f) == t.term().abs_depth());
    let target = r.app_index.0 as int;
    assert(crate::tree_facts::chain_avoids(Seq::empty(), crate::flat_tree::reach(b, root, f)));
    assert(crate::tree_facts::chain_in(Seq::empty(), 0, b.len() as int));
    lemma_locate_facts(b, root, crate::flat_tree::ParentEdge::IntoRoot, Seq::empty(), f, target);
    let c = t.redex_place(r).0;
    let tr = t.redex_term(r);
    crate::beta_reduce::lemma_nest_view(b, target, c, f);
    assert(c.len() + tr.abs_depth() <= t.term().abs_depth());
    lemma_view_indices(b, target, c, f, h);
    match tr {
        Debruijn::Application { func, arg } => {
            match *func {
                Debruijn::Abstraction { body } => {
                    assert(tr.abs_depth() >= (*arg).abs_depth());
                    assert(tr.abs_depth() >= (*func).abs_depth());
                    assert((*func).abs_depth() == (*body).abs_depth() + 1);
                    assert(indices_le(*arg, h + c.len()));
                    lemma_subst_fits(*body, *arg, 1, h + c.len());
                },
                _ => {},
            }
        },
        _ => {},
    }
}

/// A term laid out without a redex is in normal form.
pub proof fn lemma_no_redex_normal(
    b: Seq<Node>,
    i: int,
    edge: ParentEdge,
    depth: nat,
    chain: Seq<crate::flat_tree::AbsIndex>,
    fuel: nat,
)
    requires
        node_view(b, i, chain, fuel) is Some,
        redexes_spec(b, i, edge, depth, fuel).len() == 0,
        b.len() <= u32::MAX,
    ensures
        is_normal(node_view(b, i, chain, fuel)->0),
    decreases fuel,
{
    match b[i] {
        Node::Abs(abs) => {
            let me = crate::flat_tree::AbsIndex(crate::flat_tree::BackingIndex(i as u32));
            lemma_no_redex_normal(b, abs.body.0 as int, ParentEdge::AbsToBody(me), depth + 1, chain.push(me), (fuel - 1) as nat);
        },
        Node::App(app) => {
            let ma = crate::flat_tree::AppIndex(crate::flat_tree::BackingIndex(i as u32));
            let rf = redexes_spec(b, app.func.0 as int, ParentEdge::AppToFunc(ma), depth, (fuel - 1) as nat);
            let ra = redexes_spec(b, app.arg.0 as int, ParentEdge::AppToArg(ma), depth, (fuel - 1) as nat);
            assert(rf.len() == 0 && ra.len() == 0);
            lemma_no_redex_normal(b, app.func.0 as int, ParentEdge::AppToFunc(ma), depth, chain, (fuel - 1) as nat);
            lemma_no_redex_normal(b, app.arg.0 as int, ParentEdge::AppToArg(ma), depth, chain, (fuel - 1) as nat);
            assert(app.func.0 < b.len());
            assert(((i as u32) as int) == i);
            assert(!crate::beta_reduce::redex_at(b, i));
            assert(!(b[app.func.0 as int] is Abs));
        },
        _ => {},
    }
}

/// The applications of the redexes listed from `i` are reached from `i`.
pub proof fn lemma_redexes_reached(b: Seq<Node>, i: int, edge: ParentEdge, depth: nat, fuel: nat)
    requires
        b.len() <= u32::MAX,
    ensures
        forall|k: int| 0 <= k < redexes_spec(b, i, edge, depth, fuel).len()
            ==> reach(b, i, fuel).contains(#[trigger] redexes_spec(b, i, edge, depth, fuel)[k].app_index.0 as int),
    decreases fuel,
{
    if fuel > 0 && 0 <= i < b.len() {
        match b[i] {
            Node::Abs(abs) => {
                let me = AbsIndex(BackingIndex(i as u32));
                lemma_redexes_reached(b, abs.body.0 as int, ParentEdge::AbsToBody(me), depth + 1, (fuel - 1) as nat);
            },
            Node::App(app) => {
                let ma = AppIndex(BackingIndex(i as u32));
                let here = match crate::beta_reduce::redex_spec(b, depth as usize, edge, BackingIndex(i as u32)) {
                    Some(r) => seq![r],
                    None => Seq::empty(),
                };
                let rf = redexes_spec(b, app.func.0 as int, ParentEdge::AppToFunc(ma), depth, (fuel - 1) as nat);
                let ra = redexes_spec(b, app.arg.0 as int, ParentEdge::AppToArg(ma), depth, (fuel - 1) as nat);
                lemma_redexes_reached(b, app.func.0 as int, ParentEdge::AppToFunc(ma), depth, (fuel - 1) as nat);
                lemma_redexes_reached(b, app.arg.0 as int, ParentEdge::AppToArg(ma), depth, (fuel - 1) as nat);
                let all = redexes_spec(b, i, edge, depth, fuel);
                assert(all == here + rf + ra);
                assert forall|k: int| 0 <= k < all.len() implies reach(b, i, fuel).contains(#[trigger] all[k].app_index.0 as int) by {
                    if k < here.len() {
                        assert(all[k] == here[k]);
                        assert(((i as u32) as int) == i);
                    } else if k < here.len() + rf.len() {
                        assert(all[k] == rf[k - here.len()]);
                    } else {
                        assert(all[k] == ra[k - here.len() - rf.len()]);
                    }
                }
            },
            _ => {},
        }
    }
}

/// A term laid out with a redex is not in normal form.
pub proof fn lemma_redex_not_normal(
    b: Seq<Node>,
    i: int,
    edge: ParentEdge,
    depth: nat,
    chain: Seq<AbsIndex>,
    fuel: nat,
)
    requires
        node_view(b, i, chain, fuel) is Some,
        redexes_spec(b, i, edge, depth, fuel).len() > 0,
        b.len() <= u32::MAX,
    ensures
        !is_normal(node_view(b, i, chain, fuel)->0),
    decreases fuel,
{
    match b[i] {
        Node::Abs(abs) => {
            let me = AbsIndex(BackingIndex(i as u32));
            lemma_redex_not_normal(b, abs.body.0 as int, ParentEdge::AbsToBody(me), depth + 1, chain.push(me), (fuel - 1) as nat);
        },
        Node::App(app) => {
            let ma = AppIndex(BackingIndex(i as u32));
            let rf = redexes_spec(b, app.func.0 as int, ParentEdge::AppToFunc(ma), depth, (fuel - 1) as nat);
            let ra = redexes_spec(b, app.arg.0 as int, ParentEdge::AppToArg(ma), depth, (fuel - 1) as nat);
            assert(((i as u32) as int) == i);
            if crate::beta_reduce::redex_at(b, i) {
                assert(b[app.func.0 as int] is Abs);
            } else if rf.len() > 0 {
                lemma_redex_not_normal(b, app.func.0 as int, ParentEdge::AppToFunc(ma), depth, chain, (fuel - 1) as nat);
            } else {
                lemma_redex_not_normal(b, app.arg.0 as int, ParentEdge::AppToArg(ma), depth, chain, (fuel - 1) as nat);
            }
        },
        _ => {},
    }
}

/// Contracting the first redex listed from `i` takes the leftmost-outermost step of its term,
/// where that step stays within `usize`.
pub proof fn lemma_first_contraction_is_step(
    b: Seq<Node>,
    i: int,
    edge: ParentEdge,
    depth: nat,
    chain: Seq<AbsIndex>,
    fuel: nat,
)
    requires
        b.len() <= u32::MAX,
        is_tree(b, i, fuel),
        node_view(b, i, chain, fuel) is Some,
        redexes_spec(b, i, edge, depth, fuel).len() > 0,
        step_ok(node_view(b, i, chain, fuel)->0),
    ensures
        step(node_view(b, i, chain, fuel)->0) == reduced_view(b, i, chain, fuel, redexes_spec(b, i, edge, depth, fuel)[0].app_index.0 as int),
    decreases fuel,
{
    let p = redexes_spec(b, i, edge, depth, fuel)[0].app_index.0 as int;
    match b[i] {
        Node::Abs(abs) => {
            let me = AbsIndex(BackingIndex(i as u32));
            let bi = abs.body.0 as int;
            let f1 = (fuel - 1) as nat;
            lemma_redexes_reached(b, bi, ParentEdge::AbsToBody(me), depth + 1, f1);
            assert(reach(b, bi, f1).contains(p));
            lemma_first_contraction_is_step(b, bi, ParentEdge::AbsToBody(me), depth + 1, chain.push(me), f1);
        },
        Node::App(app) => {
            let ma = AppIndex(BackingIndex(i as u32));
            let fi = app.func.0 as int;
            let ai = app.arg.0 as int;
            let f1 = (fuel - 1) as nat;
            let rf = redexes_spec(b, fi, ParentEdge::AppToFunc(ma), depth, f1);
            let ra = redexes_spec(b, ai, ParentEdge::AppToArg(ma), depth, f1);
            let tf = node_view(b, fi, chain, f1)->0;
            let ta = node_view(b, ai, chain, f1)->0;
            assert(((i as u32) as int) == i);
            if crate::beta_reduce::redex_at(b, i) {
                assert(p == i);
                let tb = node_view(b, b[fi]->Abs_0.body.0 as int, chain.push(AbsIndex(BackingIndex(fi as u32))), (f1 - 1) as nat)->0;
                assert(tf == Debruijn::Abstraction { body: Box::new(tb) });
                crate::debruijn_flat::lemma_contraction_is_beta(tb, ta);
            } else {
                assert(!(b[fi] is Abs));
                assert(!(tf is Abstraction));
                let here = Seq::<RedexMut>::empty();
                assert(redexes_spec(b, i, edge, depth, fuel) == here + rf + ra);
                assert(here + rf + ra =~= rf + ra);
                lemma_redexes_reached(b, fi, ParentEdge::AppToFunc(ma), depth, f1);
                lemma_redexes_reached(b, ai, ParentEdge::AppToArg(ma), depth, f1);
                if rf.len() > 0 {
                    assert((rf + ra)[0] == rf[0]);
                    assert(reach(b, fi, f1).contains(p));
                    assert(!reach(b, ai, f1).contains(p));
                    lemma_redex_not_normal(b, fi, ParentEdge::AppToFunc(ma), depth, chain, f1);
                    lemma_step_none_iff_normal(tf);
                    lemma_first_contraction_is_step(b, fi, ParentEdge::AppToFunc(ma), depth, chain, f1);
                    lemma_reduced_away(b, ai, chain, f1, p);
                } else {
                    assert((rf + ra) =~= ra);
                    assert(reach(b, ai, f1).contains(p));
                    assert(!reach(b, fi, f1).contains(p));
                    lemma_no_redex_normal(b, fi, ParentEdge::AppToFunc(ma), depth, chain, f1);
                    lemma_step_none_iff_normal(tf);
                    lemma_first_contraction_is_step(b, ai, ParentEdge::AppToArg(ma), depth, chain, f1);
                    lemma_reduced_away(b, fi, chain, f1, p);
                }
            }
        },
        _ => {},
    }
}

} // verus!
