//! Facts about contracting a held redex of a contour `FlatTree`: where its parts lie, what
//! substituting into its body needs, and the term once the edge to it leads to the new body.
use vstd::prelude::*;

use crate::beta_reduce::{body_ready, nest, redex_at, RedexMut};
use crate::debruijn::Debruijn;
use crate::debruijn_flat::{contraction_fits, subst_down, subst_fits};
use crate::flat_tree::{
    is_tree, lemma_reach_basics, lemma_view_fuel, node_view, reach, shape, AbsIndex, Application, BackingIndex, FlatTree, Node,
    ParentEdge,
};
use crate::redex_facts::{lemma_locate_abs, lemma_locate_facts, lemma_outer, reduced_view};
use crate::subst_facts::{all_abs, bound_count, edge_child, set_edge, subst_result};
use crate::tree_facts::{chain_avoids, chain_in, lemma_tree_fuel, lemma_tree_within, reach_size};

verus! {

/// Where a held redex lies: a tree under abstractions outside it, reached from a node outside
/// it, with the parts of the redex inside it.
pub proof fn lemma_redex_parts(t: FlatTree, r: RedexMut)
    requires
        t.well_formed(),
        t.holds_redex(r),
    ensures
        ({
            let b = t.backing@;
            let r0 = t.root.0 as int;
            let fuel = t.tree_fuel();
            let p = r.app_index.0 as int;
            let fi = r.func_index.0.0 as int;
            let bi = r.body_index.0 as int;
            let ai = r.arg_index.0 as int;
            let f1 = (fuel - 1) as nat;
            let f2 = (fuel - 2) as nat;
            let (c, pe) = t.redex_place(r);
            let pp = crate::subst_facts::edge_parent(pe);
            &&& is_tree(b, r0, fuel)
            &&& node_view(b, r0, Seq::empty(), fuel) is Some
            &&& is_tree(b, p, fuel)
            &&& node_view(b, p, c, fuel) is Some
            &&& all_abs(b, c)
            &&& chain_avoids(c, reach(b, p, fuel))
            &&& chain_in(c, 0, b.len() as int)
            &&& c.len() + nest(b, p, fuel) <= nest(b, r0, fuel)
            &&& forall|m: int| #[trigger] reach(b, p, fuel).contains(m) ==> reach(b, r0, fuel).contains(m)
            &&& pe == r.parent_to_app
            &&& (p == r0 ==> pe is IntoRoot && c == Seq::<AbsIndex>::empty())
            &&& (p != r0 ==> !(pe is IntoRoot) && reach(b, r0, fuel).contains(pp) && !reach(b, p, fuel).contains(pp)
                && edge_child(b, BackingIndex(0), pe) == Some(BackingIndex(p as u32)))
            &&& fuel >= 3
            &&& b[p] == Node::App(Application { func: r.func_index.0, arg: r.arg_index })
            &&& b[fi] is Abs && b[fi]->Abs_0.body == r.body_index
            &&& is_tree(b, fi, f1) && is_tree(b, bi, f2) && is_tree(b, ai, f1)
            &&& reach(b, fi, f1).disjoint(reach(b, ai, f1))
            &&& !reach(b, fi, f1).contains(p) && !reach(b, ai, f1).contains(p)
            &&& !reach(b, bi, f2).contains(fi)
            &&& forall|m: int| #[trigger] reach(b, bi, f2).contains(m) ==> reach(b, fi, f1).contains(m)
            &&& reach(b, fi, f1).contains(fi)
            &&& forall|m: int| #[trigger] reach(b, fi, f1).contains(m) ==> reach(b, p, fuel).contains(m)
            &&& forall|m: int| #[trigger] reach(b, ai, f1).contains(m) ==> reach(b, p, fuel).contains(m)
            &&& reach(b, p, fuel).contains(p)
            &&& node_view(b, bi, c.push(r.func_index), f2) is Some
            &&& node_view(b, ai, c, f1) is Some
            &&& node_view(b, p, c, fuel) == Some(Debruijn::Application {
                func: Box::new(Debruijn::Abstraction { body: Box::new(node_view(b, bi, c.push(r.func_index), f2)->0) }),
                arg: Box::new(node_view(b, ai, c, f1)->0),
            })
            &&& nest(b, p, fuel) >= 1 + nest(b, bi, f2)
            &&& nest(b, p, fuel) >= nest(b, ai, f1)
        }),
{
    let b = t.backing@;
    let r0 = t.root.0 as int;
    let fuel = t.tree_fuel();
    let p = r.app_index.0 as int;
    let fi = r.func_index.0.0 as int;
    let bi = r.body_index.0 as int;
    let ai = r.arg_index.0 as int;
    let f1 = (fuel - 1) as nat;
    let f2 = (fuel - 2) as nat;
    assert(is_tree(b, r0, fuel) && node_view(b, r0, Seq::empty(), fuel) is Some);
    lemma_locate_facts(b, r0, ParentEdge::IntoRoot, Seq::empty(), fuel, p);
    lemma_locate_abs(b, r0, ParentEdge::IntoRoot, Seq::empty(), fuel, p);
    lemma_reach_basics(b, r0, fuel);
    lemma_reach_basics(b, p, fuel);
    assert(redex_at(b, p));
    assert(b[p] == Node::App(Application { func: r.func_index.0, arg: r.arg_index }));
    assert(is_tree(b, fi, f1));
    assert(is_tree(b, ai, f1));
    assert(b[fi] is Abs && b[fi]->Abs_0.body == r.body_index);
    assert(is_tree(b, bi, f2));
    assert(fuel >= 3);
    lemma_reach_basics(b, fi, f1);
    lemma_reach_basics(b, ai, f1);
    lemma_reach_basics(b, bi, f2);
    let (c, pe) = t.redex_place(r);
    assert(node_view(b, p, c, fuel) is Some);
    assert(node_view(b, fi, c, f1) == Some(Debruijn::Abstraction { body: Box::new(node_view(b, bi, c.push(r.func_index), f2)->0) }));
    assert(forall|m: int| #[trigger] reach(b, bi, f2).contains(m) ==> reach(b, fi, f1).contains(m));
    assert(forall|m: int| #[trigger] reach(b, fi, f1).contains(m) ==> reach(b, p, fuel).contains(m));
    assert(forall|m: int| #[trigger] reach(b, ai, f1).contains(m) ==> reach(b, p, fuel).contains(m));
    assert(node_view(b, bi, c.push(r.func_index), f2) is Some);
    assert(node_view(b, ai, c, f1) is Some);
    assert(nest(b, fi, f1) == 1 + nest(b, bi, f2));
    assert(all_abs(b, c));
    assert(chain_avoids(c, reach(b, p, fuel)));
    assert(c.len() + nest(b, p, fuel) <= nest(b, r0, fuel));
    assert(pe == r.parent_to_app);
}


/// What `beta_reduce` needs of its tree.
pub open spec fn beta_ready(t: FlatTree, r: RedexMut) -> bool {
    &&& t.well_formed()
    &&& t.holds_redex(r)
    &&& t.room_for(r)
    &&& 2 * nest(t.backing@, t.root.0 as int, t.tree_fuel()) <= usize::MAX
    &&& contraction_fits(t.redex_term(r))
}

/// A tree ready for contracting `r` is ready for substituting into its body.
pub proof fn lemma_beta_ready(t: FlatTree, r: RedexMut)
    requires
        beta_ready(t, r),
    ensures
        body_ready(t.backing@, t.root, r, t.tree_fuel(), t.redex_place(r).0),
{
    lemma_redex_parts(t, r);
    let b = t.backing@;
    let r0 = t.root.0 as int;
    let fuel = t.tree_fuel();
    let p = r.app_index.0 as int;
    let f = r.func_index;
    let fi = f.0.0 as int;
    let bi = r.body_index.0 as int;
    let ai = r.arg_index.0 as int;
    let f1 = (fuel - 1) as nat;
    let f2 = (fuel - 2) as nat;
    let c = t.redex_place(r).0;
    let e = Seq::<AbsIndex>::empty();
    lemma_reach_basics(b, ai, f1);
    lemma_reach_basics(b, bi, f2);
    assert(c.push(f) + e =~= c.push(f));
    assert(chain_avoids(c, reach(b, ai, f1))) by {
        assert forall|j: int| 0 <= j < c.len() implies !reach(b, ai, f1).contains(#[trigger] c[j].0.0 as int) by {
            assert(!reach(b, p, fuel).contains(c[j].0.0 as int));
        }
    }
    assert(!c.contains(f)) by {
        if c.contains(f) {
            let j = choose|j: int| 0 <= j < c.len() && c[j] == f;
            assert(!reach(b, p, fuel).contains(c[j].0.0 as int));
        }
    }
    assert(chain_avoids(c.push(f), reach(b, bi, f2))) by {
        assert forall|j: int| 0 <= j < c.push(f).len() implies !reach(b, bi, f2).contains(#[trigger] c.push(f)[j].0.0 as int) by {
            if j < c.len() {
                assert(c.push(f)[j] == c[j]);
                assert(!reach(b, p, fuel).contains(c[j].0.0 as int));
            }
        }
    }
    assert(reach(b, bi, f2).disjoint(reach(b, ai, f1))) by {
        assert forall|m: int| reach(b, bi, f2).contains(m) implies !reach(b, ai, f1).contains(m) by {
            assert(reach(b, fi, f1).contains(m));
        }
    }
    lemma_tree_within(b, bi, f2);
    crate::subst_facts::lemma_count_fuel(b, f, bi, f2, fuel);
    lemma_tree_fuel(b, ai, f1, fuel);
    assert(edge_child(b, t.root, ParentEdge::AbsToBody(f)) == Some(BackingIndex(bi as u32)));
    let ta = node_view(b, ai, c, f1)->0;
    assert(crate::subst_facts::subst_env(b, f, ai, f1, c, ta, b.len() as int));
    assert(node_view(b, bi, c.push(f) + e, f2) is Some);
    assert(b.len() + bound_count(b, f, bi, f2) * reach_size(b, ai, f1) < u32::MAX);
    assert(c.len() + 1 + e.len() + nest(b, bi, f2) + nest(b, ai, f1) <= usize::MAX);
    assert(subst_fits(node_view(b, bi, c.push(f) + e, f2)->0, ta, e.len() + 1));
}

/// After the substitution, the edge to the redex can be led to the new body.
pub proof fn lemma_before_repoint(t0: FlatTree, b1: Seq<Node>, r: RedexMut, nb: BackingIndex)
    requires
        beta_ready(t0, r),
        subst_result(t0.backing@, b1, t0.root, r.func_index, r.arg_index.0 as int, r.body_index.0 as int, ParentEdge::AbsToBody(r.func_index),
            (t0.tree_fuel() - 2) as nat, t0.redex_place(r).0, Seq::empty(), (t0.tree_fuel() - 1) as nat,
            node_view(t0.backing@, r.arg_index.0 as int, t0.redex_place(r).0, (t0.tree_fuel() - 1) as nat)->0),
        edge_child(b1, t0.root, ParentEdge::AbsToBody(r.func_index)) == Some(nb),
    ensures
        edge_child(b1, t0.root, r.parent_to_app) is Some,
        r.parent_to_app.parent_spec() != Some(nb),
{
    lemma_redex_parts(t0, r);
    let b0 = t0.backing@;
    let fuel = t0.tree_fuel();
    let p = r.app_index.0 as int;
    let fi = r.func_index.0.0 as int;
    let bi = r.body_index.0 as int;
    let ai = r.arg_index.0 as int;
    let f1 = (fuel - 1) as nat;
    let f2 = (fuel - 2) as nat;
    let fr = (f2 + f1) as nat;
    let pe = r.parent_to_app;
    let pp = crate::subst_facts::edge_parent(pe);
    if !(pe is IntoRoot) {
        assert(!reach(b0, bi, f2).contains(pp));
        assert(pp != fi);
        assert(shape(b1[pp]) == shape(b0[pp]));
        lemma_reach_basics(b1, nb.0 as int, fr);
        assert(reach(b1, nb.0 as int, fr).contains(nb.0 as int));
        assert(!reach(b0, ai, f1).contains(pp));
    }
}

/// The facts that hold right after the substitution, before the edge to the redex moves.
pub open spec fn substituted(t0: FlatTree, b1: Seq<Node>, r: RedexMut, nb: BackingIndex) -> bool {
    &&& beta_ready(t0, r)
    &&& subst_result(t0.backing@, b1, t0.root, r.func_index, r.arg_index.0 as int, r.body_index.0 as int, ParentEdge::AbsToBody(r.func_index),
        (t0.tree_fuel() - 2) as nat, t0.redex_place(r).0, Seq::empty(), (t0.tree_fuel() - 1) as nat,
        node_view(t0.backing@, r.arg_index.0 as int, t0.redex_place(r).0, (t0.tree_fuel() - 1) as nat)->0)
    &&& edge_child(b1, t0.root, ParentEdge::AbsToBody(r.func_index)) == Some(nb)
    &&& r.parent_to_app.parent_spec() != Some(nb)
}

/// The contracted term, as the new body holds it after the substitution.
#[verifier::rlimit(100)]
#[verifier::spinoff_prover]
pub proof fn lemma_new_body(t0: FlatTree, b1: Seq<Node>, r: RedexMut, nb: BackingIndex)
    requires
        substituted(t0, b1, r, nb),
    ensures
        ({
            let fuel = t0.tree_fuel();
            let fr = ((fuel - 2) + (fuel - 1)) as nat;
            let c = t0.redex_place(r).0;
            let p = r.app_index.0 as int;
            &&& node_view(b1, nb.0 as int, c, fr) == reduced_view(t0.backing@, p, c, fuel, p)
            &&& reduced_view(t0.backing@, p, c, fuel, p) is Some
            &&& is_tree(b1, nb.0 as int, fr)
            &&& b1.len() < u32::MAX
            &&& crate::contour_edit::edits_keeping(t0.backing@, b1)
        }),
{
    let b0 = t0.backing@;
    let fuel = t0.tree_fuel();
    let p = r.app_index.0 as int;
    let f = r.func_index;
    let bi = r.body_index.0 as int;
    let ai = r.arg_index.0 as int;
    let f1 = (fuel - 1) as nat;
    let f2 = (fuel - 2) as nat;
    let fr = (f2 + f1) as nat;
    let c = t0.redex_place(r).0;
    let e = Seq::<AbsIndex>::empty();
    let tb = node_view(b0, bi, c.push(f), f2)->0;
    let ta = node_view(b0, ai, c, f1)->0;
    assert(c.push(f) + e =~= c.push(f));
    assert(c + e =~= c);
    assert(node_view(b0, p, c, fuel) == Some(Debruijn::Application {
        func: Box::new(Debruijn::Abstraction { body: Box::new(tb) }),
        arg: Box::new(ta),
    })) by {
        lemma_redex_parts(t0, r);
    }
    assert(reduced_view(b0, p, c, fuel, p) == Some(subst_down(tb, ta, 1)));
    assert(b0.len() + bound_count(b0, f, bi, f2) * reach_size(b0, ai, f1) < u32::MAX) by {
        assert(is_tree(b0, bi, f2) && is_tree(b0, ai, f1) && fuel >= 3) by {
            lemma_redex_parts(t0, r);
        }
        lemma_tree_within(b0, bi, f2);
        crate::subst_facts::lemma_count_fuel(b0, f, bi, f2, fuel);
        lemma_tree_fuel(b0, ai, f1, fuel);
        assert(t0.room_for(r));
    }
}

/// After the edge into the root is led to the new body: the tree holds the contracted term.
pub proof fn lemma_done_root(t0: FlatTree, b1: Seq<Node>, t2: FlatTree, r: RedexMut, nb: BackingIndex)
    requires
        substituted(t0, b1, r, nb),
        r.parent_to_app is IntoRoot,
        t2.backing@ == b1,
        t2.root == nb,
    ensures
        t2.well_formed(),
        t2.term() == t0.reduced(r),
{
    lemma_redex_parts(t0, r);
    lemma_new_body(t0, b1, r, nb);
    let fuel = t0.tree_fuel();
    let fr = ((fuel - 2) + (fuel - 1)) as nat;
    let n = nb.0 as int;
    assert(is_tree(b1, n, fr) && node_view(b1, n, Seq::empty(), fr) is Some);
    let g = t2.tree_fuel();
    lemma_tree_fuel_view_same(b1, n, fr, g);
    let h = t2.fuel();
    lemma_view_fuel_same(b1, n, fr, h);
}

/// After an edge inside the tree is led to the new body: the tree holds the contracted term.
#[verifier::rlimit(100)]
#[verifier::spinoff_prover]
pub proof fn lemma_done_inner(t0: FlatTree, b1: Seq<Node>, t2: FlatTree, r: RedexMut, nb: BackingIndex)
    requires
        substituted(t0, b1, r, nb),
        !(r.parent_to_app is IntoRoot),
        t2.backing@ == set_edge(b1, r.parent_to_app, nb),
        t2.root == t0.root,
    ensures
        t2.well_formed(),
        t2.term() == t0.reduced(r),
{
    lemma_new_body(t0, b1, r, nb);
    let b0 = t0.backing@;
    let b2 = t2.backing@;
    let r0 = t0.root.0 as int;
    let fuel = t0.tree_fuel();
    let p = r.app_index.0 as int;
    let f = r.func_index;
    let fi = f.0.0 as int;
    let bi = r.body_index.0 as int;
    let ai = r.arg_index.0 as int;
    let f1 = (fuel - 1) as nat;
    let f2 = (fuel - 2) as nat;
    let fr = (f2 + f1) as nat;
    let c = t0.redex_place(r).0;
    let pe = r.parent_to_app;
    let pp = crate::subst_facts::edge_parent(pe);
    let n = nb.0 as int;
    assert(is_tree(b0, r0, fuel) && node_view(b0, r0, Seq::empty(), fuel) is Some) by {
        lemma_redex_parts(t0, r);
    }
    assert(crate::redex_facts::locate(b0, r0, ParentEdge::IntoRoot, Seq::empty(), fuel, p) is Some);
    assert(p != r0 && reach(b0, r0, fuel).contains(pp) && !reach(b0, p, fuel).contains(pp)) by {
        lemma_redex_parts(t0, r);
    }
    assert(crate::subst_facts::edge_child(b0, BackingIndex(0), pe) == Some(BackingIndex(p as u32))) by {
        lemma_redex_parts(t0, r);
    }
    assert((forall|m: int| #[trigger] reach(b0, bi, f2).contains(m) ==> reach(b0, p, fuel).contains(m))
        && (forall|m: int| #[trigger] reach(b0, ai, f1).contains(m) ==> reach(b0, p, fuel).contains(m))
        && reach(b0, p, fuel).contains(fi)) by {
        lemma_redex_parts(t0, r);
    }
    assert(0 <= pp < b0.len()) by {
        lemma_reach_basics(b0, r0, fuel);
    }
    assert(b0.len() <= u32::MAX);
    assert(!reach(b0, bi, f2).contains(pp) && pp != fi && !reach(b0, ai, f1).contains(pp));
    assert(shape(b1[pp]) == shape(b0[pp]));
    lemma_reach_basics(b1, n, fr);
    assert(crate::contour_edit::edits_keeping(b1, b2)) by {
        assert(crate::subst_facts::edge_child(b1, BackingIndex(0), pe) is Some);
        lemma_set_children_edge(b1, b2, pe, nb);
    }
    assert(is_tree(b2, n, fr) && node_view(b2, n, c, fr) == node_view(b1, n, c, fr)
        && reach(b2, n, fr) == reach(b1, n, fr)) by {
        assert forall|m: int| reach(b1, n, fr).contains(m) implies shape(#[trigger] b2[m]) == shape(b1[m]) by {
            assert(m != pp);
            assert(b2[m] == b1[m]);
        }
        lemma_tree_within(b1, n, fr);
        crate::subst_facts::lemma_subtree_keep(b1, b2, f, n, fr, c);
    }
    assert(crate::flat_tree::binders_kept(b0, b2)) by {
        crate::contour_edit::lemma_edits_trans(b0, b1, b2);
    }
    lemma_reach_basics(b0, r0, fuel);
    assert forall|k: int| #[trigger] reach(b0, r0, fuel).contains(k) && !reach(b0, p, fuel).contains(k) && k != pp
        implies k < b2.len() && shape(b2[k]) == shape(b0[k]) by {
        assert(0 <= k < b0.len());
        assert(!reach(b0, bi, f2).contains(k));
        assert(k != fi);
        assert(b2[k] == b1[k]);
    }
    assert(shape(b2[pp]) == shape(set_edge(b0, pe, nb)[pp])) by {
        assert(shape(b1[pp]) == shape(b0[pp]));
    }
    assert forall|m: int| #[trigger] reach(b2, n, fr).contains(m) implies !(reach(b0, r0, fuel).contains(m) && !reach(b0, p, fuel).contains(m)) by {
        lemma_reach_basics(b0, r0, fuel);
    }
    lemma_outer(b0, b2, r0, ParentEdge::IntoRoot, Seq::empty(), fuel, p, nb, fr);
    let hh = (fuel + fr) as nat;
    assert(is_tree(b2, r0, hh) && node_view(b2, r0, Seq::empty(), hh) is Some);
    let g = t2.tree_fuel();
    lemma_tree_fuel_view_same(b2, r0, hh, g);
    let h = t2.fuel();
    lemma_view_fuel_same(b2, r0, hh, h);
}

/// Two fuels with which a subtree is a tree with a view give the same view.
pub proof fn lemma_tree_fuel_view_same(b: Seq<Node>, i: int, f1: nat, f2: nat)
    requires
        is_tree(b, i, f1) && node_view(b, i, Seq::empty(), f1) is Some,
        is_tree(b, i, f2) && node_view(b, i, Seq::empty(), f2) is Some,
    ensures
        node_view(b, i, Seq::empty(), f2) == node_view(b, i, Seq::empty(), f1),
{
    if f1 <= f2 {
        lemma_view_fuel(b, i, Seq::empty(), f1, f2);
    } else {
        lemma_view_fuel(b, i, Seq::empty(), f2, f1);
    }
}

/// Two fuels with which a subtree has a view give the same view.
pub proof fn lemma_view_fuel_same(b: Seq<Node>, i: int, f1: nat, f2: nat)
    requires
        node_view(b, i, Seq::empty(), f1) is Some,
        node_view(b, i, Seq::empty(), f2) is Some,
    ensures
        node_view(b, i, Seq::empty(), f2) == node_view(b, i, Seq::empty(), f1),
{
    if f1 <= f2 {
        lemma_view_fuel(b, i, Seq::empty(), f1, f2);
    } else {
        lemma_view_fuel(b, i, Seq::empty(), f2, f1);
    }
}

/// Leading an edge from an application or abstraction elsewhere keeps what edits keep.
pub proof fn lemma_set_children_edge(b1: Seq<Node>, b2: Seq<Node>, pe: ParentEdge, nb: BackingIndex)
    requires
        !(pe is IntoRoot),
        edge_child(b1, BackingIndex(0), pe) is Some,
        b2 == set_edge(b1, pe, nb),
    ensures
        crate::contour_edit::edits_keeping(b1, b2),
{
    crate::contour_edit::lemma_set_children(b1, b2, crate::subst_facts::edge_parent(pe));
}


} // verus!
