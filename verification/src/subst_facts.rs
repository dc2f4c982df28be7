//! Facts for substituting the argument of a redex into the body of its abstraction in place:
//! the variables bound to the abstraction, the last of its contour, and what changes of the
//! vector keep of a subtree.
use vstd::prelude::*;

use crate::beta_reduce::nest;
use crate::contour_edit::{
    clone_ready, cloned, contours_linked, edits_keeping, entrances_ok, lemma_edits_trans, lemma_set_children, linked_back,
};
use crate::debruijn::Debruijn;
use crate::debruijn_flat::{subst_down, subst_fits};
use crate::reference::shift_spec;
use crate::flat_tree::{
    binder, binder_of, entrance_ok, first_pos, lemma_within_widen, new_abs_of, old_abs_of, is_tree, lemma_binder_fuel, lemma_first_pos_found, lemma_reach_basics,
    node_view, reach, same_kind, shape, within, AbsIndex, Abstraction, Application, BackingIndex, BoundVarIndex,
    Node, ParentEdge,
};
use crate::tree_facts::{
    chain_avoids, chain_in, chains_disjoint, lemma_first_pos_append, lemma_reach_keep, lemma_view_keep_reach,
    lemma_weaken, reach_size,
};

verus! {

/// The variables reached from `i` within `fuel` steps that are bound to `f`.
pub open spec fn bound_count(b: Seq<Node>, f: AbsIndex, i: int, fuel: nat) -> nat
    decreases fuel,
{
    if fuel == 0 || i < 0 || i >= b.len() {
        0
    } else {
        match b[i] {
            Node::BoundVar(v) => if binder(b, v) == Some(f) {
                1
            } else {
                0
            },
            Node::Abs(a) => bound_count(b, f, a.body.0 as int, (fuel - 1) as nat),
            Node::App(a) => bound_count(b, f, a.func.0 as int, (fuel - 1) as nat) + bound_count(
                b,
                f,
                a.arg.0 as int,
                (fuel - 1) as nat,
            ),
            _ => 0,
        }
    }
}

/// The variable at `k` is the last of the contour of `f`.
pub open spec fn is_last(b: Seq<Node>, k: int, f: AbsIndex) -> bool {
    &&& 0 <= k < b.len()
    &&& b[k] matches Node::BoundVar(v)
    &&& v.next is None
    &&& binder(b, v) == Some(f)
}

/// The last variable of the contour of `f` is reached from `i` within `fuel` steps.
pub open spec fn has_last(b: Seq<Node>, f: AbsIndex, i: int, fuel: nat) -> bool
    decreases fuel,
{
    if fuel == 0 || i < 0 || i >= b.len() {
        false
    } else {
        match b[i] {
            Node::BoundVar(_) => is_last(b, i, f),
            Node::Abs(a) => has_last(b, f, a.body.0 as int, (fuel - 1) as nat),
            Node::App(a) => has_last(b, f, a.func.0 as int, (fuel - 1) as nat) || has_last(
                b,
                f,
                a.arg.0 as int,
                (fuel - 1) as nat,
            ),
            _ => false,
        }
    }
}

/// The position of the variable `n` steps along the contour of the abstraction at `a`,
/// following `entrance` and then `next` links.
pub open spec fn nth_var(b: Seq<Node>, a: int, n: nat) -> Option<int>
    decreases n,
{
    if n == 0 {
        if 0 <= a < b.len() && b[a] is Abs {
            match b[a]->Abs_0.entrance {
                Some(e) => Some(e.0.0 as int),
                None => None,
            }
        } else {
            None
        }
    } else {
        match nth_var(b, a, (n - 1) as nat) {
            Some(k) => if 0 <= k < b.len() && b[k] is BoundVar {
                match b[k]->BoundVar_0.next {
                    Some(e) => Some(e.0.0 as int),
                    None => None,
                }
            } else {
                None
            },
            None => None,
        }
    }
}

/// With every variable linked back, a variable bound to `a` lies somewhere along its contour.
pub proof fn lemma_nth_of_binder(b: Seq<Node>, k: int, a: int, fuel: nat) -> (n: nat)
    requires
        b.len() <= u32::MAX,
        contours_linked(b),
        0 <= k < b.len(),
        b[k] is BoundVar,
        binder_of(b, b[k]->BoundVar_0, fuel) == Some(AbsIndex(BackingIndex(a as u32))),
        0 <= a < b.len(),
    ensures
        nth_var(b, a, n) == Some(k),
    decreases fuel,
{
    let v = b[k]->BoundVar_0;
    let p = v.prev.0 as int;
    assert(linked_back(b, k));
    match b[p] {
        Node::Abs(_) => {
            assert(p == a);
            0
        },
        Node::BoundVar(x) => {
            let n0 = lemma_nth_of_binder(b, p, a, (fuel - 1) as nat);
            assert(x.next == Some(BoundVarIndex(BackingIndex(k as u32))));
            n0 + 1
        },
        _ => {
            0
        },
    }
}

/// Past a variable with no `next` link the contour has ended.
pub proof fn lemma_nth_stops(b: Seq<Node>, a: int, n: nat, m: nat)
    requires
        nth_var(b, a, n) is Some,
        0 <= nth_var(b, a, n)->0 < b.len(),
        b[nth_var(b, a, n)->0] is BoundVar,
        b[nth_var(b, a, n)->0]->BoundVar_0.next is None,
        n < m,
    ensures
        nth_var(b, a, m) is None,
    decreases m,
{
    if m > n + 1 {
        lemma_nth_stops(b, a, n, (m - 1) as nat);
    }
}

/// With every variable linked back, a contour has at most one last variable.
pub proof fn lemma_last_unique(b: Seq<Node>, k1: int, k2: int, f: AbsIndex)
    requires
        b.len() <= u32::MAX,
        contours_linked(b),
        is_last(b, k1, f),
        is_last(b, k2, f),
    ensures
        k1 == k2,
{
    let a = f.0.0 as int;
    let v1 = b[k1]->BoundVar_0;
    let v2 = b[k2]->BoundVar_0;
    assert(binder_of(b, v1, b.len()) == Some(f));
    assert(0 <= a < b.len() && b[a] is Abs) by {
        lemma_binder_is_abs(b, v1, b.len());
    }
    assert(f == AbsIndex(BackingIndex(a as u32)));
    let n1 = lemma_nth_of_binder(b, k1, a, b.len());
    let n2 = lemma_nth_of_binder(b, k2, a, b.len());
    if n1 < n2 {
        lemma_nth_stops(b, a, n1, n2);
    } else if n2 < n1 {
        lemma_nth_stops(b, a, n2, n1);
    }
}

/// A binder found is an abstraction of the vector.
pub proof fn lemma_binder_is_abs(b: Seq<Node>, v: crate::flat_tree::BoundVariable, fuel: nat)
    requires
        binder_of(b, v, fuel) is Some,
    ensures
        ({
            let a = (binder_of(b, v, fuel)->0).0.0 as int;
            0 <= a < b.len() && b[a] is Abs
        }),
    decreases fuel,
{
    if let Node::BoundVar(x) = b[v.prev.0 as int] {
        lemma_binder_is_abs(b, x, (fuel - 1) as nat);
    }
}

/// A last variable reached from `i` is one of the positions reached.
pub proof fn lemma_has_last_witness(b: Seq<Node>, f: AbsIndex, i: int, fuel: nat) -> (k: int)
    requires
        has_last(b, f, i, fuel),
    ensures
        reach(b, i, fuel).contains(k),
        is_last(b, k, f),
    decreases fuel,
{
    lemma_reach_basics(b, i, fuel);
    match b[i] {
        Node::Abs(a) => lemma_has_last_witness(b, f, a.body.0 as int, (fuel - 1) as nat),
        Node::App(a) => {
            if has_last(b, f, a.func.0 as int, (fuel - 1) as nat) {
                lemma_has_last_witness(b, f, a.func.0 as int, (fuel - 1) as nat)
            } else {
                lemma_has_last_witness(b, f, a.arg.0 as int, (fuel - 1) as nat)
            }
        },
        _ => i,
    }
}

/// Two disjoint parts of a tree do not both hold the last variable of a contour.
pub proof fn lemma_last_once(b: Seq<Node>, f: AbsIndex, i: int, fi: nat, j: int, fj: nat)
    requires
        b.len() <= u32::MAX,
        contours_linked(b),
        reach(b, i, fi).disjoint(reach(b, j, fj)),
    ensures
        !(has_last(b, f, i, fi) && has_last(b, f, j, fj)),
{
    if has_last(b, f, i, fi) && has_last(b, f, j, fj) {
        let k1 = lemma_has_last_witness(b, f, i, fi);
        let k2 = lemma_has_last_witness(b, f, j, fj);
        lemma_last_unique(b, k1, k2, f);
    }
}

/// What is read from a subtree is kept by a change that keeps the shapes of its nodes.
pub proof fn lemma_subtree_keep(b0: Seq<Node>, b: Seq<Node>, f: AbsIndex, i: int, fuel: nat, chain: Seq<AbsIndex>)
    requires
        edits_keeping(b0, b),
        within(b0, i, 0, b0.len() as int, fuel),
        node_view(b0, i, chain, fuel) is Some,
        forall|m: int| reach(b0, i, fuel).contains(m) ==> shape(#[trigger] b[m]) == shape(b0[m]),
    ensures
        reach(b, i, fuel) == reach(b0, i, fuel),
        is_tree(b, i, fuel) == is_tree(b0, i, fuel),
        reach_size(b, i, fuel) == reach_size(b0, i, fuel),
        nest(b, i, fuel) == nest(b0, i, fuel),
        within(b, i, 0, b.len() as int, fuel),
        node_view(b, i, chain, fuel) == node_view(b0, i, chain, fuel),
        bound_count(b, f, i, fuel) == bound_count(b0, f, i, fuel),
        has_last(b, f, i, fuel) == has_last(b0, f, i, fuel),
    decreases fuel,
{
    crate::tree_facts::lemma_within_reach(b0, i, 0, b0.len() as int, fuel);
    lemma_reach_keep(b0, b, i, fuel);
    lemma_view_keep_reach(b0, b, i, fuel, chain);
    lemma_reach_basics(b0, i, fuel);
    assert(shape(b[i]) == shape(b0[i]));
    match b0[i] {
        Node::BoundVar(v) => {
            assert(same_kind(b0[i], b[i]));
        },
        Node::Abs(a) => {
            let c = a.body.0 as int;
            lemma_reach_basics(b0, c, (fuel - 1) as nat);
            lemma_subtree_keep(b0, b, f, c, (fuel - 1) as nat, chain.push(AbsIndex(BackingIndex(i as u32))));
        },
        Node::App(a) => {
            lemma_reach_basics(b0, a.func.0 as int, (fuel - 1) as nat);
            lemma_reach_basics(b0, a.arg.0 as int, (fuel - 1) as nat);
            lemma_subtree_keep(b0, b, f, a.func.0 as int, (fuel - 1) as nat, chain);
            lemma_subtree_keep(b0, b, f, a.arg.0 as int, (fuel - 1) as nat, chain);
        },
        _ => {},
    }
}

/// Every element of `s` is an abstraction of the vector.
pub open spec fn all_abs(b: Seq<Node>, s: Seq<AbsIndex>) -> bool {
    forall|j: int| 0 <= j < s.len() ==> (#[trigger] s[j]).0.0 < b.len() && b[s[j].0.0 as int] is Abs
}

/// Where a binder lies in the chain with and without the abstraction `f` removed.
pub proof fn lemma_drop_binder(c: Seq<AbsIndex>, f: AbsIndex, d: Seq<AbsIndex>, x: AbsIndex)
    requires
        !c.contains(f),
        !d.contains(f),
        chains_disjoint(d, c),
    ensures
        x == f ==> first_pos(c, x) < 0,
        first_pos(c, x) >= 0 ==> first_pos(c.push(f) + d, x) == first_pos(c, x) && first_pos(c + d, x) == first_pos(c, x),
        first_pos(c, x) < 0 && x == f ==> first_pos(c.push(f) + d, x) == c.len(),
        first_pos(c, x) < 0 && x != f && first_pos(d, x) >= 0 ==> first_pos(c.push(f) + d, x) == c.len() + 1 + first_pos(d, x)
            && first_pos(c + d, x) == c.len() + first_pos(d, x),
        first_pos(c, x) < 0 && x != f && first_pos(d, x) < 0 ==> first_pos(c.push(f) + d, x) == -1 && first_pos(c + d, x) == -1,
{
    let cf = c.push(f);
    let s1 = seq![f];
    assert(cf =~= c + s1);
    lemma_first_pos_append(c, s1, x);
    lemma_first_pos_append(cf, d, x);
    lemma_first_pos_append(c, d, x);
    lemma_first_pos_found(c, x);
    lemma_first_pos_found(d, x);
    assert(first_pos(s1, x) == if x == f { 0int } else { -1int }) by {
        assert(s1[0] == f);
        assert(s1.drop_first() =~= Seq::<AbsIndex>::empty());
        assert(first_pos(Seq::<AbsIndex>::empty(), x) == -1);
    }
    if first_pos(c, x) >= 0 {
        assert(c[first_pos(c, x)] == x);
        if x == f {
            assert(c.contains(f));
        }
    }
    if first_pos(c, x) < 0 && x != f && first_pos(d, x) >= 0 {
        assert(d[first_pos(d, x)] == x);
    }
    if x == f && first_pos(d, x) >= 0 {
        assert(d[first_pos(d, x)] == x);
        assert(d.contains(f));
    }
}


/// The node that the edge `e` leads to, in a tree with root `root`.
pub open spec fn edge_child(b: Seq<Node>, root: BackingIndex, e: ParentEdge) -> Option<BackingIndex> {
    match e {
        ParentEdge::IntoRoot => Some(root),
        ParentEdge::AbsToBody(p) => if p.0.0 < b.len() && b[p.0.0 as int] is Abs {
            Some(b[p.0.0 as int]->Abs_0.body)
        } else {
            None
        },
        ParentEdge::AppToFunc(p) => if p.0.0 < b.len() && b[p.0.0 as int] is App {
            Some(b[p.0.0 as int]->App_0.func)
        } else {
            None
        },
        ParentEdge::AppToArg(p) => if p.0.0 < b.len() && b[p.0.0 as int] is App {
            Some(b[p.0.0 as int]->App_0.arg)
        } else {
            None
        },
    }
}

/// The vector with the edge `e` (other than the edge into the root) led to `child`.
pub open spec fn set_edge(b: Seq<Node>, e: ParentEdge, child: BackingIndex) -> Seq<Node> {
    match e {
        ParentEdge::IntoRoot => b,
        ParentEdge::AbsToBody(p) => b.update(
            p.0.0 as int,
            Node::Abs(Abstraction { body: child, entrance: b[p.0.0 as int]->Abs_0.entrance }),
        ),
        ParentEdge::AppToFunc(p) => b.update(
            p.0.0 as int,
            Node::App(Application { func: child, arg: b[p.0.0 as int]->App_0.arg }),
        ),
        ParentEdge::AppToArg(p) => b.update(
            p.0.0 as int,
            Node::App(Application { func: b[p.0.0 as int]->App_0.func, arg: child }),
        ),
    }
}

/// The position of the node that an edge other than the edge into the root comes from.
pub open spec fn edge_parent(e: ParentEdge) -> int {
    (e.parent_spec()->0).0 as int
}

/// The facts about a redex that hold while the body of its abstraction `f` is traversed: the
/// argument at `a` is a tree of nodes below `lo0` with the view `ta` under the abstractions `c`
/// above the redex, which lie outside it; `f` is an abstraction below `lo0` outside `c`; all
/// contours start well and are linked back.
pub open spec fn subst_env(b: Seq<Node>, f: AbsIndex, a: int, fa: nat, c: Seq<AbsIndex>, ta: Debruijn, lo0: int) -> bool {
    &&& is_tree(b, a, fa)
    &&& node_view(b, a, c, fa) == Some(ta)
    &&& chain_avoids(c, reach(b, a, fa))
    &&& chain_in(c, 0, lo0)
    &&& all_abs(b, c)
    &&& !c.contains(f)
    &&& 0 <= f.0.0 < lo0
    &&& b[f.0.0 as int] is Abs
    &&& forall|m: int| #[trigger] reach(b, a, fa).contains(m) ==> m < lo0
    &&& 0 <= lo0 <= b.len()
    &&& b.len() < u32::MAX
    &&& entrances_ok(b)
    &&& contours_linked(b)
}

/// What substituting into the subtree at `i` of the body needs: the environment; `i` is a
/// tree of old nodes apart from the argument, reached by the edge `pe` from an old node outside
/// both, under the abstractions `c`, `f` and then `d` (those inside the body); the copies fit;
/// and, when the argument was already moved, its last variable is not in the subtree.
pub open spec fn subst_node(
    b: Seq<Node>,
    root: BackingIndex,
    f: AbsIndex,
    a: int,
    i: int,
    pe: ParentEdge,
    fuel: nat,
    c: Seq<AbsIndex>,
    d: Seq<AbsIndex>,
    fa: nat,
    ta: Debruijn,
    lo0: int,
    reused: bool,
) -> bool {
    let pp = edge_parent(pe);
    &&& subst_env(b, f, a, fa, c, ta, lo0)
    &&& is_tree(b, i, fuel)
    &&& !(pe is IntoRoot)
    &&& edge_child(b, root, pe) == Some(BackingIndex(i as u32))
    &&& 0 <= pp < lo0
    &&& !reach(b, i, fuel).contains(pp)
    &&& !reach(b, a, fa).contains(pp)
    &&& node_view(b, i, c.push(f) + d, fuel) is Some
    &&& chain_in(d, 0, lo0)
    &&& all_abs(b, d)
    &&& chains_disjoint(d, c)
    &&& !d.contains(f)
    &&& chain_avoids(d, reach(b, a, fa))
    &&& chain_avoids(c.push(f) + d, reach(b, i, fuel))
    &&& reach(b, i, fuel).disjoint(reach(b, a, fa))
    &&& forall|m: int| #[trigger] reach(b, i, fuel).contains(m) ==> m < lo0
    &&& b.len() + bound_count(b, f, i, fuel) * reach_size(b, a, fa) < u32::MAX
    &&& c.len() + 1 + d.len() + nest(b, i, fuel) + nest(b, a, fa) <= usize::MAX
    &&& subst_fits(node_view(b, i, c.push(f) + d, fuel)->0, ta, d.len() + 1)
    &&& reused ==> !has_last(b, f, i, fuel)
}

/// What substituting into the subtree at `i` gives, from `b0` to `b`: the edge `pe` leads to a
/// tree whose view under `c` and `d` is the subtree's with the argument substituted, made of
/// the subtree's nodes, new ones, and the argument's if the subtree held its contour's last
/// variable; only the subtree's nodes and the node the edge comes from changed shape.
pub open spec fn subst_result(
    b0: Seq<Node>,
    b: Seq<Node>,
    root: BackingIndex,
    f: AbsIndex,
    a: int,
    i: int,
    pe: ParentEdge,
    fuel: nat,
    c: Seq<AbsIndex>,
    d: Seq<AbsIndex>,
    fa: nat,
    ta: Debruijn,
) -> bool {
    let pp = edge_parent(pe);
    let t = node_view(b0, i, c.push(f) + d, fuel)->0;
    let r = edge_child(b, root, pe);
    let ri = (r->0).0 as int;
    let fr = (fuel + fa) as nat;
    &&& r is Some
    &&& edits_keeping(b0, b)
    &&& forall|m: int| 0 <= m < b0.len() && !reach(b0, i, fuel).contains(m) && m != pp ==> shape(#[trigger] b[m]) == shape(b0[m])
    &&& shape(b[pp]) == shape(set_edge(b0, pe, r->0)[pp])
    &&& is_tree(b, ri, fr)
    &&& node_view(b, ri, c + d, fr) == Some(subst_down(t, ta, d.len() + 1))
    &&& forall|m: int| #[trigger] reach(b, ri, fr).contains(m) ==> reach(b0, i, fuel).contains(m) || (b0.len() <= m < b.len()) || (
        has_last(b0, f, i, fuel) && reach(b0, a, fa).contains(m))
    &&& nest(b, ri, fr) <= nest(b0, i, fuel) + nest(b0, a, fa)
    &&& b.len() <= b0.len() + bound_count(b0, f, i, fuel) * reach_size(b0, a, fa)
}

/// A variable not bound to `f` is left as it is.
pub proof fn lemma_var_keep(
    b0: Seq<Node>,
    root: BackingIndex,
    f: AbsIndex,
    a: int,
    i: int,
    pe: ParentEdge,
    fuel: nat,
    c: Seq<AbsIndex>,
    d: Seq<AbsIndex>,
    fa: nat,
    ta: Debruijn,
    lo0: int,
    reused: bool,
)
    requires
        subst_node(b0, root, f, a, i, pe, fuel, c, d, fa, ta, lo0, reused),
        b0[i] is FreeVar || (b0[i] is BoundVar && binder(b0, b0[i]->BoundVar_0) != Some(f)),
    ensures
        subst_result(b0, b0, root, f, a, i, pe, fuel, c, d, fa, ta),
{
    lemma_reach_basics(b0, i, fuel);
    let pp = edge_parent(pe);
    let t = node_view(b0, i, c.push(f) + d, fuel)->0;
    assert(edge_child(b0, root, pe) == Some(BackingIndex(i as u32)));
    assert(BackingIndex(i as u32).0 as int == i);
    assert(set_edge(b0, pe, BackingIndex(i as u32))[pp] == b0[pp]);
    if let Node::BoundVar(v) = b0[i] {
        let x = binder(b0, v)->0;
        lemma_drop_binder(c, f, d, x);
        lemma_first_pos_found(c, x);
        lemma_first_pos_found(d, x);
    }
    crate::tree_facts::lemma_within_fuel(b0, i, fuel, fuel + fa);
    crate::tree_facts::lemma_tree_within(b0, i, fuel);
    crate::flat_tree::lemma_view_fuel(b0, i, c + d, fuel, (fuel + fa) as nat);
    assert(node_view(b0, i, c + d, (fuel + fa) as nat) == Some(subst_down(t, ta, d.len() + 1)));
    assert(edits_keeping(b0, b0)) by {
        assert(crate::flat_tree::binder_frame(b0, b0)) by {
            assert forall|m: int| 0 <= m < b0.len() implies crate::flat_tree::same_kind_prev(#[trigger] b0[m], b0[m]) by {}
        }
        crate::flat_tree::lemma_frame_keeps_binders(b0, b0);
    }
}


/// At a variable bound to `f`: its view, the argument's view under `c` and `d`, and what a
/// copy of the argument needs.
pub proof fn lemma_subst_prep(
    b0: Seq<Node>,
    root: BackingIndex,
    f: AbsIndex,
    a: int,
    i: int,
    pe: ParentEdge,
    fuel: nat,
    c: Seq<AbsIndex>,
    d: Seq<AbsIndex>,
    fa: nat,
    ta: Debruijn,
    lo0: int,
    reused: bool,
)
    requires
        subst_node(b0, root, f, a, i, pe, fuel, c, d, fa, ta, lo0, reused),
        b0[i] is BoundVar,
        binder(b0, b0[i]->BoundVar_0) == Some(f),
    ensures
        subst_down(node_view(b0, i, c.push(f) + d, fuel)->0, ta, d.len() + 1) == shift_spec(ta, d.len() as int, 1),
        node_view(b0, a, c + d, fa) == Some(shift_spec(ta, d.len() as int, 1)),
        bound_count(b0, f, i, fuel) == 1,
        nest(b0, i, fuel) == 0,
        has_last(b0, f, i, fuel) == (b0[i]->BoundVar_0.next is None),
        clone_ready(b0, Seq::empty(), a, fa, c + d, b0.len() as int),
{
    lemma_reach_basics(b0, i, fuel);
    lemma_reach_basics(b0, a, fa);
    lemma_drop_binder(c, f, d, f);
    let t = node_view(b0, i, c.push(f) + d, fuel)->0;
    assert(t == Debruijn::Index((d.len() + 1) as usize));
    assert(c + Seq::<AbsIndex>::empty() =~= c);
    assert(c + d + Seq::<AbsIndex>::empty() =~= c + d);
    lemma_weaken(b0, a, c, d, Seq::empty(), fa);
    let e = Seq::<(AbsIndex, AbsIndex)>::empty();
    assert(old_abs_of(e) =~= Seq::<AbsIndex>::empty());
    assert(new_abs_of(e) =~= Seq::<AbsIndex>::empty());
    assert((c + d) + old_abs_of(e) =~= c + d);
    assert(chain_in(c + d, 0, lo0)) by {
        assert forall|j: int| 0 <= j < (c + d).len() implies 0 <= #[trigger] (c + d)[j].0.0 < lo0 by {
            if j < c.len() {
                assert((c + d)[j] == c[j]);
            } else {
                assert((c + d)[j] == d[j - c.len()]);
            }
        }
    }
    assert(chain_avoids(c + d, reach(b0, a, fa))) by {
        assert forall|j: int| 0 <= j < (c + d).len() implies !reach(b0, a, fa).contains(#[trigger] (c + d)[j].0.0 as int) by {
            if j < c.len() {
                assert((c + d)[j] == c[j]);
            } else {
                assert((c + d)[j] == d[j - c.len()]);
            }
        }
    }
    assert forall|j: int| 0 <= j < (c + d).len() implies entrance_ok(b0, #[trigger] (c + d)[j].0.0 as int) by {
        if j < c.len() {
            assert((c + d)[j] == c[j]);
        } else {
            assert((c + d)[j] == d[j - c.len()]);
        }
    }
    assert(chains_disjoint(c + d, old_abs_of(e)));
    assert(reach_size(b0, a, fa) == 1 * reach_size(b0, a, fa));
}

/// Leading the edge `pe`, which led to `i`, to `nc` in a vector that kept `b0`'s shapes.
pub proof fn lemma_edge_set(b0: Seq<Node>, b1: Seq<Node>, b2: Seq<Node>, root: BackingIndex, pe: ParentEdge, i: int, nc: BackingIndex)
    requires
        edits_keeping(b0, b1),
        !(pe is IntoRoot),
        0 <= edge_parent(pe) < b0.len(),
        edge_child(b0, root, pe) == Some(BackingIndex(i as u32)),
        forall|m: int| 0 <= m < b0.len() ==> shape(#[trigger] b1[m]) == shape(b0[m]),
        b2 == set_edge(b1, pe, nc),
    ensures
        edits_keeping(b0, b2),
        forall|m: int| 0 <= m < b0.len() && m != edge_parent(pe) ==> shape(#[trigger] b2[m]) == shape(b0[m]),
        shape(b2[edge_parent(pe)]) == shape(set_edge(b0, pe, nc)[edge_parent(pe)]),
        edge_child(b2, root, pe) == Some(nc),
        b2.len() == b1.len(),
        forall|m: int| 0 <= m < b2.len() && m != edge_parent(pe) ==> #[trigger] b2[m] == b1[m],
{
    let pp = edge_parent(pe);
    assert(shape(b1[pp]) == shape(b0[pp]));
    lemma_set_children(b1, b2, pp);
    lemma_edits_trans(b0, b1, b2);
    assert forall|m: int| 0 <= m < b0.len() && m != pp implies shape(#[trigger] b2[m]) == shape(b0[m]) by {
        assert(b2[m] == b1[m]);
    }
}

/// At the last variable bound to `f`: the edge that led to it leads to the argument itself.
#[verifier::rlimit(40)]
pub proof fn lemma_var_reuse(
    b0: Seq<Node>,
    b2: Seq<Node>,
    root: BackingIndex,
    f: AbsIndex,
    a: int,
    i: int,
    pe: ParentEdge,
    fuel: nat,
    c: Seq<AbsIndex>,
    d: Seq<AbsIndex>,
    fa: nat,
    ta: Debruijn,
    lo0: int,
    reused: bool,
)
    requires
        subst_node(b0, root, f, a, i, pe, fuel, c, d, fa, ta, lo0, reused),
        b0[i] is BoundVar,
        binder(b0, b0[i]->BoundVar_0) == Some(f),
        b0[i]->BoundVar_0.next is None,
        b2 == set_edge(b0, pe, BackingIndex(a as u32)),
    ensures
        subst_result(b0, b2, root, f, a, i, pe, fuel, c, d, fa, ta),
{
    lemma_subst_prep(b0, root, f, a, i, pe, fuel, c, d, fa, ta, lo0, reused);
    lemma_reach_basics(b0, a, fa);
    let fr = (fuel + fa) as nat;
    assert(edits_keeping(b0, b0)) by {
        lemma_edits_refl(b0);
    }
    lemma_edge_set(b0, b0, b2, root, pe, i, BackingIndex(a as u32));
    crate::tree_facts::lemma_tree_within(b0, a, fa);
    assert forall|m: int| reach(b0, a, fa).contains(m) implies shape(#[trigger] b2[m]) == shape(b0[m]) by {
        assert(b2[m] == b0[m]);
    }
    lemma_subtree_keep(b0, b2, f, a, fa, c + d);
    crate::tree_facts::lemma_within_fuel(b2, a, fa, fr);
    crate::flat_tree::lemma_view_fuel(b2, a, c + d, fa, fr);
}

/// At a variable bound to `f` other than the last: the edge that led to it leads to a copy of
/// the argument.
#[verifier::rlimit(100)]
#[verifier::spinoff_prover]
pub proof fn lemma_var_copy(
    b0: Seq<Node>,
    b1: Seq<Node>,
    b2: Seq<Node>,
    root: BackingIndex,
    f: AbsIndex,
    a: int,
    i: int,
    pe: ParentEdge,
    fuel: nat,
    c: Seq<AbsIndex>,
    d: Seq<AbsIndex>,
    fa: nat,
    ta: Debruijn,
    lo0: int,
    reused: bool,
    nc: BackingIndex,
)
    requires
        subst_node(b0, root, f, a, i, pe, fuel, c, d, fa, ta, lo0, reused),
        b0[i] is BoundVar,
        binder(b0, b0[i]->BoundVar_0) == Some(f),
        cloned(b0, b1, Seq::empty(), a, fa, c + d, nc.0 as int),
        b2 == set_edge(b1, pe, nc),
    ensures
        subst_result(b0, b2, root, f, a, i, pe, fuel, c, d, fa, ta),
{
    let t = node_view(b0, i, c.push(f) + d, fuel)->0;
    assert(subst_down(t, ta, d.len() + 1) == shift_spec(ta, d.len() as int, 1)
        && node_view(b0, a, c + d, fa) == Some(shift_spec(ta, d.len() as int, 1))
        && bound_count(b0, f, i, fuel) == 1 && nest(b0, i, fuel) == 0) by {
        lemma_subst_prep(b0, root, f, a, i, pe, fuel, c, d, fa, ta, lo0, reused);
    }
    let fr = (fuel + fa) as nat;
    let n = nc.0 as int;
    let e = Seq::<(AbsIndex, AbsIndex)>::empty();
    assert(new_abs_of(e) =~= Seq::<AbsIndex>::empty());
    assert((c + d) + new_abs_of(e) =~= c + d);
    assert((c + d) + old_abs_of(e) =~= c + d);
    let pp = edge_parent(pe);
    assert(shape(b1[pp]) == shape(b0[pp]));
    assert(pe is AbsToBody ==> b1[pp] is Abs);
    assert(!(pe is AbsToBody) ==> b1[pp] is App);
    lemma_edge_set(b0, b1, b2, root, pe, i, nc);
    lemma_copy_kept(b0, b1, b2, pe, nc, f, n, fa, fr, c + d);
    crate::beta_reduce::lemma_nest_view(b1, n, c + d, fa);
    crate::beta_reduce::lemma_nest_view(b0, a, c + d, fa);
    assert(bound_count(b0, f, i, fuel) * reach_size(b0, a, fa) == reach_size(b0, a, fa));
    lemma_copy_result(b0, b2, root, f, a, i, pe, fuel, c, d, fa, ta, nc);
}

/// The copy at `n`, laid out past `b0`, is kept when one edge outside it is set.
proof fn lemma_copy_kept(
    b0: Seq<Node>,
    b1: Seq<Node>,
    b2: Seq<Node>,
    pe: ParentEdge,
    nc: BackingIndex,
    f: AbsIndex,
    n: int,
    fa: nat,
    fr: nat,
    cd: Seq<AbsIndex>,
)
    requires
        b2 == set_edge(b1, pe, nc),
        !(pe is IntoRoot),
        b2.len() == b1.len(),
        forall|m: int| 0 <= m < b2.len() && m != edge_parent(pe) ==> #[trigger] b2[m] == b1[m],
        0 <= edge_parent(pe) < b0.len(),
        pe is AbsToBody ==> b1[edge_parent(pe)] is Abs,
        !(pe is AbsToBody) ==> b1[edge_parent(pe)] is App,
        b0.len() <= b1.len(),
        within(b1, n, b0.len() as int, b1.len() as int, fa),
        is_tree(b1, n, fa),
        node_view(b1, n, cd, fa) is Some,
        fa <= fr,
    ensures
        is_tree(b2, n, fr),
        node_view(b2, n, cd, fr) == node_view(b1, n, cd, fa),
        nest(b2, n, fr) == nest(b1, n, fa),
        forall|m: int| #[trigger] reach(b2, n, fr).contains(m) ==> b0.len() <= m < b2.len(),
{
    lemma_set_children(b1, b2, edge_parent(pe));
    crate::tree_facts::lemma_within_reach(b1, n, b0.len() as int, b1.len() as int, fa);
    lemma_within_widen(b1, n, b0.len() as int, b1.len() as int, fa, 0, b1.len() as int, fa);
    assert forall|m: int| reach(b1, n, fa).contains(m) implies shape(#[trigger] b2[m]) == shape(b1[m]) by {
        assert(b2[m] == b1[m]);
    }
    lemma_subtree_keep(b1, b2, f, n, fa, cd);
    crate::tree_facts::lemma_within_fuel(b2, n, fa, fr);
    crate::flat_tree::lemma_view_fuel(b2, n, cd, fa, fr);
}

/// What the copy of the argument put behind the edge makes of a substitution at a variable.
proof fn lemma_copy_result(
    b0: Seq<Node>,
    b2: Seq<Node>,
    root: BackingIndex,
    f: AbsIndex,
    a: int,
    i: int,
    pe: ParentEdge,
    fuel: nat,
    c: Seq<AbsIndex>,
    d: Seq<AbsIndex>,
    fa: nat,
    ta: Debruijn,
    nc: BackingIndex,
)
    requires
        edits_keeping(b0, b2),
        forall|m: int| 0 <= m < b0.len() && m != edge_parent(pe) ==> shape(#[trigger] b2[m]) == shape(b0[m]),
        shape(b2[edge_parent(pe)]) == shape(set_edge(b0, pe, nc)[edge_parent(pe)]),
        edge_child(b2, root, pe) == Some(nc),
        is_tree(b2, nc.0 as int, (fuel + fa) as nat),
        node_view(b2, nc.0 as int, c + d, (fuel + fa) as nat) == Some(subst_down(node_view(b0, i, c.push(f) + d, fuel)->0, ta, d.len() + 1)),
        forall|m: int| #[trigger] reach(b2, nc.0 as int, (fuel + fa) as nat).contains(m) ==> b0.len() <= m < b2.len(),
        nest(b2, nc.0 as int, (fuel + fa) as nat) <= nest(b0, i, fuel) + nest(b0, a, fa),
        b2.len() <= b0.len() + bound_count(b0, f, i, fuel) * reach_size(b0, a, fa),
    ensures
        subst_result(b0, b2, root, f, a, i, pe, fuel, c, d, fa, ta),
{
}

/// Leaving the vector as it is keeps everything.
pub proof fn lemma_edits_refl(b: Seq<Node>)
    ensures
        edits_keeping(b, b),
{
    assert(crate::flat_tree::binder_frame(b, b)) by {
        assert forall|m: int| 0 <= m < b.len() implies crate::flat_tree::same_kind_prev(#[trigger] b[m], b[m]) by {}
    }
    crate::flat_tree::lemma_frame_keeps_binders(b, b);
}


/// `x * r` grows with `x`, and distributes over a sum.
pub proof fn lemma_mul_facts(x: nat, y: nat, r: nat)
    ensures
        x <= y ==> x * r <= y * r,
        (x + y) * r == x * r + y * r,
{
    assert(x <= y ==> x * r <= y * r) by (nonlinear_arith);
    assert((x + y) * r == x * r + y * r) by (nonlinear_arith);
}

/// Substituting into an abstraction needs substituting into its body, one abstraction deeper.
pub proof fn lemma_abs_pre(
    b0: Seq<Node>,
    root: BackingIndex,
    f: AbsIndex,
    a: int,
    i: int,
    pe: ParentEdge,
    fuel: nat,
    c: Seq<AbsIndex>,
    d: Seq<AbsIndex>,
    fa: nat,
    ta: Debruijn,
    lo0: int,
    reused: bool,
)
    requires
        subst_node(b0, root, f, a, i, pe, fuel, c, d, fa, ta, lo0, reused),
        b0[i] is Abs,
    ensures
        ({
            let me = AbsIndex(BackingIndex(i as u32));
            subst_node(b0, root, f, a, b0[i]->Abs_0.body.0 as int, ParentEdge::AbsToBody(me), (fuel - 1) as nat, c, d.push(me), fa, ta, lo0, reused)
        }),
{
    let me = AbsIndex(BackingIndex(i as u32));
    let body = b0[i]->Abs_0.body.0 as int;
    let d2 = d.push(me);
    let f1 = (fuel - 1) as nat;
    let co = c.push(f) + d;
    lemma_reach_basics(b0, i, fuel);
    lemma_reach_basics(b0, body, f1);
    assert(co.push(me) =~= c.push(f) + d2);
    assert(me.0.0 as int == i);
    assert(chain_in(d2, 0, lo0)) by {
        assert forall|j: int| 0 <= j < d2.len() implies 0 <= #[trigger] d2[j].0.0 < lo0 by {
            if j < d.len() {
                assert(d2[j] == d[j]);
            }
        }
    }
    assert(all_abs(b0, d2)) by {
        assert forall|j: int| 0 <= j < d2.len() implies (#[trigger] d2[j]).0.0 < b0.len() && b0[d2[j].0.0 as int] is Abs by {
            if j < d.len() {
                assert(d2[j] == d[j]);
            }
        }
    }
    assert(chains_disjoint(d2, c)) by {
        assert forall|j: int, k: int| 0 <= j < d2.len() && 0 <= k < c.len() implies d2[j] != c[k] by {
            if j < d.len() {
                assert(d2[j] == d[j]);
            } else {
                assert(co[k] == c[k]);
                assert(!reach(b0, i, fuel).contains(c[k].0.0 as int));
            }
        }
    }
    assert(!d2.contains(f)) by {
        assert(co[c.len() as int] == f);
        assert(!reach(b0, i, fuel).contains(f.0.0 as int));
        assert forall|j: int| 0 <= j < d2.len() implies d2[j] != f by {
            if j < d.len() {
                assert(d2[j] == d[j]);
            }
        }
    }
    assert(chain_avoids(d2, reach(b0, a, fa))) by {
        assert forall|j: int| 0 <= j < d2.len() implies !reach(b0, a, fa).contains(#[trigger] d2[j].0.0 as int) by {
            if j < d.len() {
                assert(d2[j] == d[j]);
            }
        }
    }
    let cb = c.push(f) + d2;
    assert(chain_avoids(cb, reach(b0, body, f1))) by {
        assert forall|j: int| 0 <= j < cb.len() implies !reach(b0, body, f1).contains(#[trigger] cb[j].0.0 as int) by {
            if j < co.len() {
                assert(cb[j] == co[j]);
                assert(!reach(b0, i, fuel).contains(co[j].0.0 as int));
            }
        }
    }
    assert forall|m: int| #[trigger] reach(b0, body, f1).contains(m) implies m < lo0 by {
        assert(reach(b0, i, fuel).contains(m));
    }
    assert(reach(b0, body, f1).disjoint(reach(b0, a, fa))) by {
        assert forall|m: int| reach(b0, body, f1).contains(m) implies !reach(b0, a, fa).contains(m) by {
            assert(reach(b0, i, fuel).contains(m));
        }
    }
    assert(edge_child(b0, root, ParentEdge::AbsToBody(me)) == Some(BackingIndex(body as u32)));
}

/// Substituting into an abstraction is substituting into its body.
#[verifier::rlimit(40)]
pub proof fn lemma_abs_post(
    b0: Seq<Node>,
    b: Seq<Node>,
    root: BackingIndex,
    f: AbsIndex,
    a: int,
    i: int,
    pe: ParentEdge,
    fuel: nat,
    c: Seq<AbsIndex>,
    d: Seq<AbsIndex>,
    fa: nat,
    ta: Debruijn,
    lo0: int,
    reused: bool,
)
    requires
        subst_node(b0, root, f, a, i, pe, fuel, c, d, fa, ta, lo0, reused),
        b0[i] is Abs,
        ({
            let me = AbsIndex(BackingIndex(i as u32));
            subst_result(b0, b, root, f, a, b0[i]->Abs_0.body.0 as int, ParentEdge::AbsToBody(me), (fuel - 1) as nat, c, d.push(me), fa, ta)
        }),
    ensures
        subst_result(b0, b, root, f, a, i, pe, fuel, c, d, fa, ta),
{
    let me = AbsIndex(BackingIndex(i as u32));
    let body = b0[i]->Abs_0.body.0 as int;
    let f1 = (fuel - 1) as nat;
    let fr = (fuel + fa) as nat;
    let pp = edge_parent(pe);
    let inner = ParentEdge::AbsToBody(me);
    let rb = edge_child(b, root, inner)->0;
    lemma_reach_basics(b0, i, fuel);
    lemma_reach_basics(b0, body, f1);
    lemma_reach_basics(b0, a, fa);
    assert(me.0.0 as int == i);
    assert(edge_parent(inner) == i);
    assert(shape(b[pp]) == shape(b0[pp]));
    assert(edge_child(b, root, pe) == Some(BackingIndex(i as u32)));
    assert(BackingIndex(i as u32).0 as int == i);
    assert(set_edge(b0, pe, BackingIndex(i as u32))[pp] == b0[pp]);
    assert(shape(b[i]) == shape(set_edge(b0, inner, rb)[i]));
    assert(b[i] is Abs && b[i]->Abs_0.body == rb);
    assert((c + d).push(me) =~= c + d.push(me));
    assert((fr - 1) as nat == (f1 + fa) as nat);
    lemma_reach_basics(b, rb.0 as int, (f1 + fa) as nat);
    assert(!reach(b, rb.0 as int, (f1 + fa) as nat).contains(i));
    assert forall|m: int| 0 <= m < b0.len() && !reach(b0, i, fuel).contains(m) && m != pp implies shape(#[trigger] b[m]) == shape(b0[m]) by {
        assert(!reach(b0, body, f1).contains(m));
    }
}


/// Substituting into an application needs substituting into its function first.
pub proof fn lemma_app_pre(
    b0: Seq<Node>,
    root: BackingIndex,
    f: AbsIndex,
    a: int,
    i: int,
    pe: ParentEdge,
    fuel: nat,
    c: Seq<AbsIndex>,
    d: Seq<AbsIndex>,
    fa: nat,
    ta: Debruijn,
    lo0: int,
    reused: bool,
)
    requires
        subst_node(b0, root, f, a, i, pe, fuel, c, d, fa, ta, lo0, reused),
        b0[i] is App,
    ensures
        subst_node(b0, root, f, a, b0[i]->App_0.func.0 as int, ParentEdge::AppToFunc(crate::flat_tree::AppIndex(BackingIndex(i as u32))),
            (fuel - 1) as nat, c, d, fa, ta, lo0, reused),
{
    let fi = b0[i]->App_0.func.0 as int;
    let ai = b0[i]->App_0.arg.0 as int;
    let f1 = (fuel - 1) as nat;
    let co = c.push(f) + d;
    lemma_reach_basics(b0, i, fuel);
    lemma_reach_basics(b0, fi, f1);
    assert(chain_avoids(co, reach(b0, fi, f1))) by {
        assert forall|j: int| 0 <= j < co.len() implies !reach(b0, fi, f1).contains(#[trigger] co[j].0.0 as int) by {
            assert(!reach(b0, i, fuel).contains(co[j].0.0 as int));
        }
    }
    assert forall|m: int| #[trigger] reach(b0, fi, f1).contains(m) implies m < lo0 && !reach(b0, a, fa).contains(m) by {
        assert(reach(b0, i, fuel).contains(m));
    }
    lemma_mul_facts(bound_count(b0, f, fi, f1), bound_count(b0, f, ai, f1), reach_size(b0, a, fa));
    assert(edge_child(b0, root, ParentEdge::AppToFunc(crate::flat_tree::AppIndex(BackingIndex(i as u32)))) == Some(BackingIndex(fi as u32)));
}

/// After substituting into the function of an application: ready to substitute into its
/// argument, which, like the redex's argument, is as it was.
#[verifier::rlimit(40)]
pub proof fn lemma_app_mid(
    b0: Seq<Node>,
    b1: Seq<Node>,
    root: BackingIndex,
    f: AbsIndex,
    a: int,
    i: int,
    pe: ParentEdge,
    fuel: nat,
    c: Seq<AbsIndex>,
    d: Seq<AbsIndex>,
    fa: nat,
    ta: Debruijn,
    lo0: int,
    reused: bool,
)
    requires
        subst_node(b0, root, f, a, i, pe, fuel, c, d, fa, ta, lo0, reused),
        b0[i] is App,
        subst_result(b0, b1, root, f, a, b0[i]->App_0.func.0 as int, ParentEdge::AppToFunc(crate::flat_tree::AppIndex(BackingIndex(i as u32))),
            (fuel - 1) as nat, c, d, fa, ta),
    ensures
        ({
            let fi = b0[i]->App_0.func.0 as int;
            let ai = b0[i]->App_0.arg.0 as int;
            let f1 = (fuel - 1) as nat;
            &&& subst_node(b1, root, f, a, ai, ParentEdge::AppToArg(crate::flat_tree::AppIndex(BackingIndex(i as u32))), f1, c, d, fa, ta,
                lo0, reused || has_last(b0, f, fi, f1))
            &&& node_view(b1, ai, c.push(f) + d, f1) == node_view(b0, ai, c.push(f) + d, f1)
            &&& reach(b1, ai, f1) == reach(b0, ai, f1)
            &&& bound_count(b1, f, ai, f1) == bound_count(b0, f, ai, f1)
            &&& has_last(b1, f, ai, f1) == has_last(b0, f, ai, f1)
            &&& nest(b1, ai, f1) == nest(b0, ai, f1)
            &&& reach(b1, a, fa) == reach(b0, a, fa)
            &&& reach_size(b1, a, fa) == reach_size(b0, a, fa)
            &&& nest(b1, a, fa) == nest(b0, a, fa)
            &&& !(has_last(b0, f, fi, f1) && has_last(b0, f, ai, f1))
        }),
{
    let fi = b0[i]->App_0.func.0 as int;
    let ai = b0[i]->App_0.arg.0 as int;
    let f1 = (fuel - 1) as nat;
    let me = crate::flat_tree::AppIndex(BackingIndex(i as u32));
    let co = c.push(f) + d;
    let rf = edge_child(b1, root, ParentEdge::AppToFunc(me))->0;
    lemma_reach_basics(b0, i, fuel);
    lemma_reach_basics(b0, fi, f1);
    lemma_reach_basics(b0, ai, f1);
    lemma_reach_basics(b0, a, fa);
    crate::tree_facts::lemma_tree_within(b0, ai, f1);
    crate::tree_facts::lemma_tree_within(b0, a, fa);
    assert(me.0.0 as int == i);
    assert forall|m: int| reach(b0, ai, f1).contains(m) implies shape(#[trigger] b1[m]) == shape(b0[m]) by {
        assert(!reach(b0, fi, f1).contains(m));
    }
    lemma_subtree_keep(b0, b1, f, ai, f1, co);
    assert forall|m: int| reach(b0, a, fa).contains(m) implies shape(#[trigger] b1[m]) == shape(b0[m]) by {
        assert(!reach(b0, fi, f1).contains(m));
        assert(m != i);
    }
    lemma_subtree_keep(b0, b1, f, a, fa, c);
    lemma_last_once(b0, f, fi, f1, ai, f1);
    lemma_mul_facts(bound_count(b0, f, fi, f1), bound_count(b0, f, ai, f1), reach_size(b0, a, fa));
    assert(shape(b1[i]) == shape(set_edge(b0, ParentEdge::AppToFunc(me), rf)[i]));
    assert(edge_child(b1, root, ParentEdge::AppToArg(me)) == Some(BackingIndex(ai as u32)));
    assert forall|j: int| 0 <= j < c.len() implies (#[trigger] c[j]).0.0 < b1.len() && b1[c[j].0.0 as int] is Abs by {
        assert(same_kind(b0[c[j].0.0 as int], b1[c[j].0.0 as int]));
    }
    assert forall|j: int| 0 <= j < d.len() implies (#[trigger] d[j]).0.0 < b1.len() && b1[d[j].0.0 as int] is Abs by {
        assert(same_kind(b0[d[j].0.0 as int], b1[d[j].0.0 as int]));
    }
    assert(same_kind(b0[f.0.0 as int], b1[f.0.0 as int]));
    assert(chain_avoids(co, reach(b0, ai, f1))) by {
        assert forall|j: int| 0 <= j < co.len() implies !reach(b0, ai, f1).contains(#[trigger] co[j].0.0 as int) by {
            assert(!reach(b0, i, fuel).contains(co[j].0.0 as int));
        }
    }
    assert forall|m: int| #[trigger] reach(b0, ai, f1).contains(m) implies m < lo0 && !reach(b0, a, fa).contains(m) by {
        assert(reach(b0, i, fuel).contains(m));
    }
}


/// Substituting into an application is substituting into its function, then its argument.
#[verifier::rlimit(80)]
pub proof fn lemma_app_post(
    b0: Seq<Node>,
    b1: Seq<Node>,
    b2: Seq<Node>,
    root: BackingIndex,
    f: AbsIndex,
    a: int,
    i: int,
    pe: ParentEdge,
    fuel: nat,
    c: Seq<AbsIndex>,
    d: Seq<AbsIndex>,
    fa: nat,
    ta: Debruijn,
    lo0: int,
    reused: bool,
)
    requires
        subst_node(b0, root, f, a, i, pe, fuel, c, d, fa, ta, lo0, reused),
        b0[i] is App,
        ({
            let fi = b0[i]->App_0.func.0 as int;
            let ai = b0[i]->App_0.arg.0 as int;
            let f1 = (fuel - 1) as nat;
            let me = crate::flat_tree::AppIndex(BackingIndex(i as u32));
            &&& subst_result(b0, b1, root, f, a, fi, ParentEdge::AppToFunc(me), f1, c, d, fa, ta)
            &&& subst_result(b1, b2, root, f, a, ai, ParentEdge::AppToArg(me), f1, c, d, fa, ta)
            &&& node_view(b1, ai, c.push(f) + d, f1) == node_view(b0, ai, c.push(f) + d, f1)
            &&& reach(b1, ai, f1) == reach(b0, ai, f1)
            &&& bound_count(b1, f, ai, f1) == bound_count(b0, f, ai, f1)
            &&& has_last(b1, f, ai, f1) == has_last(b0, f, ai, f1)
            &&& nest(b1, ai, f1) == nest(b0, ai, f1)
            &&& reach(b1, a, fa) == reach(b0, a, fa)
            &&& reach_size(b1, a, fa) == reach_size(b0, a, fa)
            &&& nest(b1, a, fa) == nest(b0, a, fa)
            &&& !(has_last(b0, f, fi, f1) && has_last(b0, f, ai, f1))
        }),
    ensures
        subst_result(b0, b2, root, f, a, i, pe, fuel, c, d, fa, ta),
{
    let fi = b0[i]->App_0.func.0 as int;
    let ai = b0[i]->App_0.arg.0 as int;
    let f1 = (fuel - 1) as nat;
    let fr = (fuel + fa) as nat;
    let fr1 = (f1 + fa) as nat;
    let me = crate::flat_tree::AppIndex(BackingIndex(i as u32));
    let pp = edge_parent(pe);
    let ef = ParentEdge::AppToFunc(me);
    let ea = ParentEdge::AppToArg(me);
    let rf = edge_child(b1, root, ef)->0;
    let ra = edge_child(b2, root, ea)->0;
    let rfi = rf.0 as int;
    let rai = ra.0 as int;
    let cd = c + d;
    lemma_reach_basics(b0, i, fuel);
    lemma_reach_basics(b0, fi, f1);
    lemma_reach_basics(b0, ai, f1);
    lemma_reach_basics(b0, a, fa);
    assert(me.0.0 as int == i);
    assert(edge_parent(ef) == i && edge_parent(ea) == i);
    assert((fr - 1) as nat == fr1);
    lemma_edits_trans(b0, b1, b2);
    // the function's result is kept by the second substitution
    lemma_reach_basics(b1, rfi, fr1);
    crate::tree_facts::lemma_tree_within(b1, rfi, fr1);
    assert forall|m: int| reach(b1, rfi, fr1).contains(m) implies shape(#[trigger] b2[m]) == shape(b1[m]) by {
        if m < b1.len() {
            assert(!reach(b1, ai, f1).contains(m));
            assert(m != i);
        }
    }
    lemma_subtree_keep(b1, b2, f, rfi, fr1, cd);
    // the shapes of old nodes outside the application
    assert forall|m: int| 0 <= m < b0.len() && !reach(b0, i, fuel).contains(m) && m != pp implies shape(#[trigger] b2[m]) == shape(b0[m]) by {
        assert(!reach(b0, fi, f1).contains(m));
        assert(!reach(b0, ai, f1).contains(m));
        assert(shape(b1[m]) == shape(b0[m]));
    }
    assert(shape(b2[pp]) == shape(b0[pp])) by {
        assert(!reach(b0, fi, f1).contains(pp));
        assert(!reach(b0, ai, f1).contains(pp));
        assert(shape(b1[pp]) == shape(b0[pp]));
    }
    assert(edge_child(b2, root, pe) == Some(BackingIndex(i as u32)));
    assert(BackingIndex(i as u32).0 as int == i);
    assert(set_edge(b0, pe, BackingIndex(i as u32))[pp] == b0[pp]);
    assert(shape(b1[i]) == shape(set_edge(b0, ef, rf)[i]));
    assert(shape(b2[i]) == shape(set_edge(b1, ea, ra)[i]));
    assert(b2[i] == Node::App(Application { func: rf, arg: ra }) || shape(b2[i]) == shape(Node::App(Application { func: rf, arg: ra })));
    // the two results are disjoint trees without the application
    lemma_reach_basics(b2, rai, fr1);
    assert(reach(b2, rfi, fr1).disjoint(reach(b2, rai, fr1))) by {
        assert forall|m: int| reach(b2, rfi, fr1).contains(m) implies !reach(b2, rai, fr1).contains(m) by {
            if reach(b2, rai, fr1).contains(m) {
                assert(reach(b1, rfi, fr1).contains(m));
            }
        }
    }
    assert(!reach(b2, rfi, fr1).contains(i));
    assert(!reach(b2, rai, fr1).contains(i));
    lemma_mul_facts(bound_count(b0, f, fi, f1), bound_count(b0, f, ai, f1), reach_size(b0, a, fa));
    let tf = node_view(b0, fi, c.push(f) + d, f1)->0;
    let tg = node_view(b0, ai, c.push(f) + d, f1)->0;
    assert(node_view(b2, rfi, cd, fr1) == Some(subst_down(tf, ta, d.len() + 1)));
    assert(node_view(b2, rai, cd, fr1) == Some(subst_down(tg, ta, d.len() + 1)));
    assert forall|m: int| #[trigger] reach(b2, i, fr).contains(m) implies reach(b0, i, fuel).contains(m) || (b0.len() <= m < b2.len()) || (
        has_last(b0, f, i, fuel) && reach(b0, a, fa).contains(m)) by {
        if m != i && !reach(b2, rfi, fr1).contains(m) {
            assert(reach(b2, rai, fr1).contains(m));
        }
    }
}


/// With every variable linked back, an abstraction with an empty contour binds no variable.
pub proof fn lemma_empty_contour(b: Seq<Node>, f: AbsIndex, k: int)
    requires
        b.len() <= u32::MAX,
        contours_linked(b),
        0 <= f.0.0 < b.len(),
        b[f.0.0 as int] matches Node::Abs(x) && x.entrance is None,
        0 <= k < b.len(),
        b[k] is BoundVar,
    ensures
        binder(b, b[k]->BoundVar_0) != Some(f),
{
    if binder(b, b[k]->BoundVar_0) == Some(f) {
        let a = f.0.0 as int;
        assert(f == AbsIndex(BackingIndex(a as u32)));
        let n = lemma_nth_of_binder(b, k, a, b.len());
        lemma_nth_none(b, a, n);
    }
}

/// The contour of an abstraction without an entrance holds no variable.
proof fn lemma_nth_none(b: Seq<Node>, a: int, n: nat)
    requires
        0 <= a < b.len(),
        b[a] matches Node::Abs(x) && x.entrance is None,
    ensures
        nth_var(b, a, n) is None,
    decreases n,
{
    if n > 0 {
        lemma_nth_none(b, a, (n - 1) as nat);
    }
}

/// No variable reached is bound to `f` when none in the vector is.
pub proof fn lemma_count_zero(b: Seq<Node>, f: AbsIndex, i: int, fuel: nat)
    requires
        forall|k: int| 0 <= k < b.len() && (#[trigger] b[k]) is BoundVar ==> binder(b, b[k]->BoundVar_0) != Some(f),
    ensures
        bound_count(b, f, i, fuel) == 0,
    decreases fuel,
{
    if fuel > 0 && 0 <= i < b.len() {
        match b[i] {
            Node::Abs(x) => lemma_count_zero(b, f, x.body.0 as int, (fuel - 1) as nat),
            Node::App(x) => {
                lemma_count_zero(b, f, x.func.0 as int, (fuel - 1) as nat);
                lemma_count_zero(b, f, x.arg.0 as int, (fuel - 1) as nat);
            },
            _ => {},
        }
    }
}

/// The count of bound variables of a subtree within the vector does not change with more fuel.
pub proof fn lemma_count_fuel(b: Seq<Node>, f: AbsIndex, i: int, f1: nat, f2: nat)
    requires
        within(b, i, 0, b.len() as int, f1),
        f1 <= f2,
    ensures
        bound_count(b, f, i, f2) == bound_count(b, f, i, f1),
    decreases f1,
{
    match b[i] {
        Node::Abs(x) => lemma_count_fuel(b, f, x.body.0 as int, (f1 - 1) as nat, (f2 - 1) as nat),
        Node::App(x) => {
            lemma_count_fuel(b, f, x.func.0 as int, (f1 - 1) as nat, (f2 - 1) as nat);
            lemma_count_fuel(b, f, x.arg.0 as int, (f1 - 1) as nat, (f2 - 1) as nat);
        },
        _ => {},
    }
}

} // verus!
