//! Changes of a contour `FlatTree` in place that keep its contours in order: putting a
//! variable into a contour, and the facts such changes keep.
use vstd::prelude::*;

use crate::debruijn::Debruijn;
use crate::flat_tree::{
    binder, binder_of, binders_kept, entrance_ok, first_pos, is_tree, lemma_binder_insert, lemma_binder_same_prev,
    lemma_first_pos, lemma_first_pos_found, lemma_reach_basics, lemma_view_keep, lemma_within_widen, new_abs_of,
    new_chain_ok, node_view, old_abs_of, reach, same_kind, same_kind_prev, shape, within, AbsIndex, Abstraction,
    Application, BackingIndex, BoundVarIndex, BoundVariable, FlatTree, Node,
};
use crate::tree_facts::{
    chain_avoids, chain_in, chains_disjoint, lemma_first_pos_append, lemma_reach_keep, lemma_tree_within,
    lemma_view_keep_reach, lemma_within_reach, reach_size,
};

verus! {

// Contours kept in order while a tree is changed in place.

/// Every abstraction's contour starts well (see `entrance_ok`).
pub open spec fn entrances_ok(b: Seq<Node>) -> bool {
    forall|k: int| 0 <= k < b.len() && b[k] is Abs ==> #[trigger] entrance_ok(b, k)
}

/// The variable at `k` is linked back from the node before it in its contour: that variable's
/// `next`, or that abstraction's entrance, is `k`.
pub open spec fn linked_back(b: Seq<Node>, k: int) -> bool {
    let p = b[k]->BoundVar_0.prev.0 as int;
    &&& p < b.len()
    &&& match b[p] {
        Node::BoundVar(x) => x.next == Some(BoundVarIndex(BackingIndex(k as u32))),
        Node::Abs(a) => a.entrance == Some(BoundVarIndex(BackingIndex(k as u32))),
        _ => false,
    }
}

/// Every variable is linked back from the node before it in its contour.
pub open spec fn contours_linked(b: Seq<Node>) -> bool {
    forall|k: int| 0 <= k < b.len() && b[k] is BoundVar ==> #[trigger] linked_back(b, k)
}

/// The vector after the variable `var` is put at the front of the contour of `abs`.
pub open spec fn inserted(b: Seq<Node>, abs: AbsIndex, var: BoundVarIndex) -> Seq<Node> {
    let a = abs.0.0 as int;
    let nv = var.0.0 as int;
    let ent = b[a]->Abs_0.entrance;
    let b1 = b.update(a, Node::Abs(Abstraction { entrance: Some(var), ..b[a]->Abs_0 }));
    let b2 = match ent {
        Some(e) => b1.update(e.0.0 as int, Node::BoundVar(BoundVariable { prev: var.0, ..b1[e.0.0 as int]->BoundVar_0 })),
        None => b1,
    };
    b2.update(nv, Node::BoundVar(BoundVariable { next: ent, prev: abs.0, ..b2[nv]->BoundVar_0 }))
}

/// What putting a freshly appended variable at the front of a contour that starts well keeps:
/// the shapes and binders of the old nodes, the contours that started well, the links back;
/// and the new variable is bound to the abstraction.
pub proof fn lemma_insert(b0: Seq<Node>, b1: Seq<Node>, b: Seq<Node>, a: int, nv: int)
    requires
        nv == b0.len(),
        b0.len() + 1 <= u32::MAX,
        b1.len() == b0.len() + 1,
        forall|k: int| 0 <= k < nv ==> #[trigger] b1[k] == b0[k],
        b1[nv] is BoundVar,
        entrance_ok(b0, a),
        b == inserted(b1, AbsIndex(BackingIndex(a as u32)), BoundVarIndex(BackingIndex(nv as u32))),
    ensures
        b.len() == b1.len(),
        binders_kept(b0, b),
        forall|k: int| 0 <= k < nv ==> shape(#[trigger] b[k]) == shape(b0[k]),
        b[nv] is BoundVar,
        binder(b, b[nv]->BoundVar_0) == Some(AbsIndex(BackingIndex(a as u32))),
        forall|x: int| entrance_ok(b0, x) ==> #[trigger] entrance_ok(b, x),
        contours_linked(b0) ==> contours_linked(b),
        edits_keeping(b0, b),
{
    let ent = b0[a]->Abs_0.entrance;
    let e: Option<int> = match ent {
        Some(x) => Some(x.0.0 as int),
        None => None,
    };
    assert(b1[a] == b0[a]);
    if let Some(x) = ent {
        assert(b1[x.0.0 as int] == b0[x.0.0 as int]);
    }
    assert forall|k: int| 0 <= k < b0.len() && Some(k) != e implies same_kind_prev(#[trigger] b0[k], b[k]) by {
        if k != a {
            assert(b[k] == b0[k]);
        }
    }
    assert(binders_kept(b0, b)) by {
        assert forall|k: int| 0 <= k < b0.len() implies same_kind(#[trigger] b0[k], b[k]) by {
            if Some(k) != e {
                assert(same_kind_prev(b0[k], b[k]));
            }
        }
        assert forall|k: int| 0 <= k < b0.len() && (#[trigger] b0[k]) is BoundVar && binder(b0, b0[k]->BoundVar_0) is Some
            implies binder(b, b[k]->BoundVar_0) == binder(b0, b0[k]->BoundVar_0) by {
            let v0 = b0[k]->BoundVar_0;
            lemma_binder_insert(b0, b, e, nv, a, v0, b0.len());
            if Some(k) == e {
                let vk = b[k]->BoundVar_0;
                let vn = b[nv]->BoundVar_0;
                assert(binder_of(b, vk, b.len()) == binder_of(b, vn, (b.len() - 1) as nat));
            } else {
                assert(same_kind_prev(b0[k], b[k]));
                lemma_binder_same_prev(b, v0, b[k]->BoundVar_0, b.len());
            }
        }
    }
    assert forall|k: int| 0 <= k < nv implies shape(#[trigger] b[k]) == shape(b0[k]) by {
        if k != a && Some(k) != e {
            assert(b[k] == b0[k]);
        }
    }
    assert(binder_of(b, b[nv]->BoundVar_0, b.len()) == Some(AbsIndex(BackingIndex(a as u32))));
    assert forall|x: int| entrance_ok(b0, x) implies #[trigger] entrance_ok(b, x) by {
        if x != a {
            assert(b[x] == b0[x]);
            if let Some(y) = b0[x]->Abs_0.entrance {
                let yi = y.0.0 as int;
                assert(Some(yi) != e);
                assert(b[yi] == b0[yi]);
            }
        }
    }
    if contours_linked(b0) {
        assert forall|k: int| 0 <= k < b.len() && b[k] is BoundVar implies #[trigger] linked_back(b, k) by {
            if k == nv {
            } else if Some(k) == e {
                assert(b[nv]->BoundVar_0.next == ent);
            } else {
                assert(b[k] == b0[k]);
                assert(linked_back(b0, k));
                let p = b0[k]->BoundVar_0.prev.0 as int;
                if p == a {
                    assert(b0[a]->Abs_0.entrance == Some(BoundVarIndex(BackingIndex(k as u32))));
                    assert(false);
                } else if Some(p) == e {
                    assert(b[p]->BoundVar_0.next == b0[p]->BoundVar_0.next);
                } else {
                    assert(b[p] == b0[p]);
                }
            }
        }
    }
    if entrances_ok(b0) {
        assert forall|k: int| 0 <= k < b.len() && b[k] is Abs implies #[trigger] entrance_ok(b, k) by {
            assert(same_kind(b0[k], b[k]));
            assert(entrance_ok(b0, k));
        }
    }
    assert forall|m: int| 0 <= m < b0.len() && (#[trigger] b0[m]) is BoundVar implies b[m]->BoundVar_0.next == b0[m]->BoundVar_0.next by {
        if m != a && Some(m) != e {
            assert(b[m] == b0[m]);
        }
    }
}

/// What a change of the vector by appending keeps: the shapes of the old nodes, their binders,
/// the contours that started well and, if they were, the links back.
pub open spec fn appended_keeping(b0: Seq<Node>, b: Seq<Node>) -> bool {
    &&& b0.len() <= b.len()
    &&& forall|m: int| 0 <= m < b0.len() ==> shape(#[trigger] b[m]) == shape(b0[m])
    &&& edits_keeping(b0, b)
}

/// What a change of the vector keeps, whatever it does to the shapes of nodes: their binders,
/// the contours that started well, and, if they were, all contours starting well and linked
/// back; and the `next` links of the old variables.
pub open spec fn edits_keeping(b0: Seq<Node>, b: Seq<Node>) -> bool {
    &&& b0.len() <= b.len()
    &&& binders_kept(b0, b)
    &&& forall|x: int| entrance_ok(b0, x) ==> #[trigger] entrance_ok(b, x)
    &&& entrances_ok(b0) ==> entrances_ok(b)
    &&& contours_linked(b0) ==> contours_linked(b)
    &&& forall|m: int| 0 <= m < b0.len() && (#[trigger] b0[m]) is BoundVar ==> b[m]->BoundVar_0.next == b0[m]->BoundVar_0.next
}

/// Changes that keep compose.
pub proof fn lemma_edits_trans(b1: Seq<Node>, b2: Seq<Node>, b3: Seq<Node>)
    requires
        edits_keeping(b1, b2),
        edits_keeping(b2, b3),
    ensures
        edits_keeping(b1, b3),
{
    crate::flat_tree::lemma_binders_kept_trans(b1, b2, b3);
    assert forall|x: int| entrance_ok(b1, x) implies #[trigger] entrance_ok(b3, x) by {
        assert(entrance_ok(b2, x));
    }
    assert forall|m: int| 0 <= m < b1.len() && (#[trigger] b1[m]) is BoundVar implies b3[m]->BoundVar_0.next == b1[m]->BoundVar_0.next by {
        assert(same_kind(b1[m], b2[m]));
    }
}

/// Appending that keeps composes.
pub proof fn lemma_appended_trans(b1: Seq<Node>, b2: Seq<Node>, b3: Seq<Node>)
    requires
        appended_keeping(b1, b2),
        appended_keeping(b2, b3),
    ensures
        appended_keeping(b1, b3),
{
    lemma_edits_trans(b1, b2, b3);
    assert forall|m: int| 0 <= m < b1.len() implies shape(#[trigger] b3[m]) == shape(b1[m]) by {
        assert(shape(b2[m]) == shape(b1[m]));
    }
}

/// A change of one application or abstraction's children keeps the binders, the contours that
/// started well and the links back.
pub proof fn lemma_set_children(b0: Seq<Node>, b: Seq<Node>, p: int)
    requires
        0 <= p < b0.len(),
        b0[p] is App || b0[p] is Abs,
        b.len() == b0.len(),
        forall|m: int| 0 <= m < b0.len() && m != p ==> #[trigger] b[m] == b0[m],
        b0[p] is App ==> b[p] is App,
        b0[p] matches Node::Abs(a) ==> (b[p] matches Node::Abs(a2) && a2.entrance == a.entrance),
    ensures
        edits_keeping(b0, b),
{
    assert(crate::flat_tree::binder_frame(b0, b)) by {
        assert forall|m: int| 0 <= m < b0.len() implies same_kind_prev(#[trigger] b0[m], b[m]) by {
            if m != p {
                assert(b[m] == b0[m]);
            }
        }
    }
    crate::flat_tree::lemma_frame_keeps_binders(b0, b);
    assert forall|x: int| entrance_ok(b0, x) implies #[trigger] entrance_ok(b, x) by {
        if x != p {
            assert(b[x] == b0[x]);
        }
        if let Some(y) = b0[x]->Abs_0.entrance {
            assert(b[y.0.0 as int] == b0[y.0.0 as int]);
        }
    }
    if contours_linked(b0) {
        assert forall|k: int| 0 <= k < b.len() && b[k] is BoundVar implies #[trigger] linked_back(b, k) by {
            assert(b[k] == b0[k]);
            assert(linked_back(b0, k));
            let q = b0[k]->BoundVar_0.prev.0 as int;
            if q != p {
                assert(b[q] == b0[q]);
            }
        }
    }
    if entrances_ok(b0) {
        assert forall|k: int| 0 <= k < b.len() && b[k] is Abs implies #[trigger] entrance_ok(b, k) by {
            if k != p {
                assert(b[k] == b0[k]);
            }
            assert(entrance_ok(b0, k));
        }
    }
    assert forall|m: int| 0 <= m < b0.len() && (#[trigger] b0[m]) is BoundVar implies b[m]->BoundVar_0.next == b0[m]->BoundVar_0.next by {
        assert(b[m] == b0[m]);
    }
}

/// Appending one node keeps what appending that keeps keeps.
pub proof fn lemma_set_children_append(b0: Seq<Node>, b: Seq<Node>)
    requires
        b.len() == b0.len() + 1,
        forall|m: int| 0 <= m < b0.len() ==> #[trigger] b[m] == b0[m],
        b[b0.len() as int] is BoundVar ==> false,
        b[b0.len() as int] matches Node::Abs(x) ==> x.entrance is None,
    ensures
        appended_keeping(b0, b),
{
    assert(crate::flat_tree::binder_frame(b0, b)) by {
        assert forall|m: int| 0 <= m < b0.len() implies same_kind_prev(#[trigger] b0[m], b[m]) by {
            assert(b[m] == b0[m]);
        }
    }
    crate::flat_tree::lemma_frame_keeps_binders(b0, b);
    assert forall|x: int| entrance_ok(b0, x) implies #[trigger] entrance_ok(b, x) by {
        assert(b[x] == b0[x]);
        if let Some(y) = b0[x]->Abs_0.entrance {
            assert(b[y.0.0 as int] == b0[y.0.0 as int]);
        }
    }
    if contours_linked(b0) {
        assert forall|k: int| 0 <= k < b.len() && b[k] is BoundVar implies #[trigger] linked_back(b, k) by {
            assert(b[k] == b0[k]);
            assert(linked_back(b0, k));
            let q = b0[k]->BoundVar_0.prev.0 as int;
            assert(b[q] == b0[q]);
        }
    }
    if entrances_ok(b0) {
        assert forall|k: int| 0 <= k < b.len() && b[k] is Abs implies #[trigger] entrance_ok(b, k) by {
            if k < b0.len() {
                assert(b[k] == b0[k]);
                assert(entrance_ok(b0, k));
            }
        }
    }
    assert forall|m: int| 0 <= m < b0.len() && (#[trigger] b0[m]) is BoundVar implies b[m]->BoundVar_0.next == b0[m]->BoundVar_0.next by {
        assert(b[m] == b0[m]);
    }
}



/// What copying a subtree in place needs: the subtree at `i` is a tree of nodes below `lo0`
/// with a view under `k` and the old abstractions of `ctx`; the copies in `ctx` are
/// abstractions at or above `lo0` whose contours start well; `k` holds abstractions below
/// `lo0`, outside the subtree and apart from the old abstractions of `ctx`, whose contours start
/// well; and the copy fits in the vector.
pub open spec fn clone_ready(b: Seq<Node>, ctx: Seq<(AbsIndex, AbsIndex)>, i: int, fuel: nat, k: Seq<AbsIndex>, lo0: int) -> bool {
    &&& is_tree(b, i, fuel)
    &&& forall|m: int| #[trigger] reach(b, i, fuel).contains(m) ==> m < lo0
    &&& 0 <= lo0 <= b.len()
    &&& b.len() + reach_size(b, i, fuel) < u32::MAX
    &&& node_view(b, i, k + old_abs_of(ctx), fuel) is Some
    &&& new_chain_ok(b, ctx, b.len() as int)
    &&& chain_in(new_abs_of(ctx), lo0, b.len() as int)
    &&& chain_in(old_abs_of(ctx), 0, lo0)
    &&& chain_in(k, 0, lo0)
    &&& chains_disjoint(k, old_abs_of(ctx))
    &&& chain_avoids(k, reach(b, i, fuel))
    &&& forall|j: int| 0 <= j < k.len() ==> entrance_ok(b, #[trigger] k[j].0.0 as int)
}

/// What a copy of the subtree at `i` of `b0` made at the end of `b0`, reaching `b`, gives: the
/// old nodes kept, and at `r` a tree of new nodes with the view of the original under the
/// copies of the abstractions.
pub open spec fn cloned(b0: Seq<Node>, b: Seq<Node>, ctx: Seq<(AbsIndex, AbsIndex)>, i: int, fuel: nat, k: Seq<AbsIndex>, r: int) -> bool {
    &&& b.len() == b0.len() + reach_size(b0, i, fuel)
    &&& appended_keeping(b0, b)
    &&& within(b, r, b0.len() as int, b.len() as int, fuel)
    &&& is_tree(b, r, fuel)
    &&& node_view(b, r, k + new_abs_of(ctx), fuel) == node_view(b0, i, k + old_abs_of(ctx), fuel)
}

/// A subtree and its view are kept by appending that keeps.
pub proof fn lemma_keep_subtree(b0: Seq<Node>, b: Seq<Node>, i: int, fuel: nat, chain: Seq<AbsIndex>)
    requires
        appended_keeping(b0, b),
        within(b0, i, 0, b0.len() as int, fuel),
        node_view(b0, i, chain, fuel) is Some,
    ensures
        reach(b, i, fuel) == reach(b0, i, fuel),
        is_tree(b, i, fuel) == is_tree(b0, i, fuel),
        reach_size(b, i, fuel) == reach_size(b0, i, fuel),
        within(b, i, 0, b.len() as int, fuel),
        node_view(b, i, chain, fuel) == node_view(b0, i, chain, fuel),
{
    lemma_within_reach(b0, i, 0, b0.len() as int, fuel);
    assert forall|m: int| reach(b0, i, fuel).contains(m) implies 0 <= m < b.len() && shape(#[trigger] b[m]) == shape(b0[m]) by {}
    lemma_reach_keep(b0, b, i, fuel);
    lemma_view_keep_reach(b0, b, i, fuel, chain);
}

/// Ready to copy a subtree, and kept by appending: ready to copy a child of an application.
pub proof fn lemma_ready_child(b0: Seq<Node>, b: Seq<Node>, ctx: Seq<(AbsIndex, AbsIndex)>, i: int, ch: int, fuel: nat, k: Seq<AbsIndex>, lo0: int)
    requires
        clone_ready(b0, ctx, i, fuel, k, lo0),
        b0[i] matches Node::App(app) && (ch == app.func.0 || ch == app.arg.0),
        appended_keeping(b0, b),
        b.len() + reach_size(b0, ch, (fuel - 1) as nat) < u32::MAX,
    ensures
        clone_ready(b, ctx, ch, (fuel - 1) as nat, k, lo0),
        node_view(b, ch, k + old_abs_of(ctx), (fuel - 1) as nat) == node_view(b0, ch, k + old_abs_of(ctx), (fuel - 1) as nat),
        reach_size(b, ch, (fuel - 1) as nat) == reach_size(b0, ch, (fuel - 1) as nat),
{
    let f1 = (fuel - 1) as nat;
    lemma_reach_basics(b0, i, fuel);
    lemma_reach_basics(b0, ch, f1);
    lemma_tree_within(b0, ch, f1);
    lemma_keep_subtree(b0, b, ch, f1, k + old_abs_of(ctx));
    assert forall|m: int| #[trigger] reach(b, ch, f1).contains(m) implies m < lo0 by {
        assert(reach(b0, i, fuel).contains(m));
    }
    assert(new_chain_ok(b, ctx, b.len() as int)) by {
        assert forall|j: int| 0 <= j < ctx.len() implies (#[trigger] ctx[j]).1.0.0 < b.len() && entrance_ok(b, ctx[j].1.0.0 as int) by {
            assert(entrance_ok(b0, ctx[j].1.0.0 as int));
        }
    }
    assert(chain_avoids(k, reach(b, ch, f1))) by {
        assert forall|j: int| 0 <= j < k.len() implies !reach(b, ch, f1).contains(#[trigger] k[j].0.0 as int) by {
            assert(!reach(b0, i, fuel).contains(k[j].0.0 as int));
        }
    }
    assert forall|j: int| 0 <= j < k.len() implies entrance_ok(b, #[trigger] k[j].0.0 as int) by {
        assert(entrance_ok(b0, k[j].0.0 as int));
    }
}

/// Ready to copy an abstraction at `i` whose copy was appended at `lo`: ready to copy its body
/// with the pair put at the end of the context.
pub proof fn lemma_ready_body(b0: Seq<Node>, b1: Seq<Node>, ctx: Seq<(AbsIndex, AbsIndex)>, i: int, fuel: nat, k: Seq<AbsIndex>, lo0: int)
    requires
        clone_ready(b0, ctx, i, fuel, k, lo0),
        b0[i] is Abs,
        b1 == b0.push(Node::Abs(Abstraction { body: BackingIndex::dummy(), entrance: None })),
    ensures
        ({
            let cb = b0[i]->Abs_0.body.0 as int;
            let c1 = ctx.push((AbsIndex(BackingIndex(i as u32)), AbsIndex(BackingIndex(b0.len() as u32))));
            &&& appended_keeping(b0, b1)
            &&& clone_ready(b1, c1, cb, (fuel - 1) as nat, k, lo0)
            &&& reach_size(b1, cb, (fuel - 1) as nat) == reach_size(b0, cb, (fuel - 1) as nat)
            &&& node_view(b1, cb, k + old_abs_of(c1), (fuel - 1) as nat) == node_view(b0, cb, (k + old_abs_of(ctx)).push(
                AbsIndex(BackingIndex(i as u32)),
            ), (fuel - 1) as nat)
        }),
{
    let f1 = (fuel - 1) as nat;
    let cb = b0[i]->Abs_0.body.0 as int;
    let lo = b0.len() as int;
    let me = AbsIndex(BackingIndex(i as u32));
    let na = AbsIndex(BackingIndex(lo as u32));
    let c1 = ctx.push((me, na));
    let oc = old_abs_of(ctx);
    let nc = new_abs_of(ctx);
    lemma_set_children_append(b0, b1);
    lemma_reach_basics(b0, i, fuel);
    lemma_reach_basics(b0, cb, f1);
    lemma_tree_within(b0, cb, f1);
    assert(old_abs_of(c1) =~= oc.push(me));
    assert(new_abs_of(c1) =~= nc.push(na));
    assert((k + oc).push(me) =~= k + old_abs_of(c1));
    lemma_keep_subtree(b0, b1, cb, f1, k + old_abs_of(c1));
    assert forall|m: int| #[trigger] reach(b1, cb, f1).contains(m) implies m < lo0 by {
        assert(reach(b0, i, fuel).contains(m));
    }
    assert(new_chain_ok(b1, c1, b1.len() as int)) by {
        assert forall|j: int, m: int| 0 <= j < m < c1.len() implies c1[j].1.0.0 < c1[m].1.0.0 by {
            if m < ctx.len() {
                assert(c1[j] == ctx[j] && c1[m] == ctx[m]);
            } else {
                assert(c1[j] == ctx[j]);
            }
        }
        assert forall|j: int| 0 <= j < c1.len() implies (#[trigger] c1[j]).1.0.0 < b1.len() && entrance_ok(b1, c1[j].1.0.0 as int) by {
            if j < ctx.len() {
                assert(c1[j] == ctx[j]);
                assert(entrance_ok(b0, ctx[j].1.0.0 as int));
            }
        }
    }
    assert(chain_in(new_abs_of(c1), lo0, b1.len() as int)) by {
        assert forall|j: int| 0 <= j < new_abs_of(c1).len() implies lo0 <= #[trigger] new_abs_of(c1)[j].0.0 < b1.len() by {
            if j < nc.len() {
                assert(new_abs_of(c1)[j] == nc[j]);
            }
        }
    }
    assert(chain_in(old_abs_of(c1), 0, lo0)) by {
        assert forall|j: int| 0 <= j < old_abs_of(c1).len() implies 0 <= #[trigger] old_abs_of(c1)[j].0.0 < lo0 by {
            if j < oc.len() {
                assert(old_abs_of(c1)[j] == oc[j]);
            }
        }
    }
    assert(chains_disjoint(k, old_abs_of(c1))) by {
        assert forall|j: int, m: int| 0 <= j < k.len() && 0 <= m < old_abs_of(c1).len() implies k[j] != old_abs_of(c1)[m] by {
            if m == oc.len() {
                assert(!reach(b0, i, fuel).contains(k[j].0.0 as int));
            } else {
                assert(old_abs_of(c1)[m] == oc[m]);
            }
        }
    }
    assert(chain_avoids(k, reach(b1, cb, f1))) by {
        assert forall|j: int| 0 <= j < k.len() implies !reach(b1, cb, f1).contains(#[trigger] k[j].0.0 as int) by {
            assert(!reach(b0, i, fuel).contains(k[j].0.0 as int));
        }
    }
    assert forall|j: int| 0 <= j < k.len() implies entrance_ok(b1, #[trigger] k[j].0.0 as int) by {
        assert(entrance_ok(b0, k[j].0.0 as int));
    }
}

/// The copy of an abstraction: its appended copy at `lo`, given the body copied at `nb`.
pub proof fn lemma_abs_done(
    b0: Seq<Node>,
    b1: Seq<Node>,
    b2: Seq<Node>,
    b3: Seq<Node>,
    ctx: Seq<(AbsIndex, AbsIndex)>,
    i: int,
    fuel: nat,
    k: Seq<AbsIndex>,
    lo0: int,
    nb: int,
)
    requires
        clone_ready(b0, ctx, i, fuel, k, lo0),
        b0[i] is Abs,
        b1 == b0.push(Node::Abs(Abstraction { body: BackingIndex::dummy(), entrance: None })),
        ({
            let cb = b0[i]->Abs_0.body.0 as int;
            let c1 = ctx.push((AbsIndex(BackingIndex(i as u32)), AbsIndex(BackingIndex(b0.len() as u32))));
            &&& appended_keeping(b0, b1)
            &&& clone_ready(b1, c1, cb, (fuel - 1) as nat, k, lo0)
            &&& reach_size(b1, cb, (fuel - 1) as nat) == reach_size(b0, cb, (fuel - 1) as nat)
            &&& node_view(b1, cb, k + old_abs_of(c1), (fuel - 1) as nat) == node_view(b0, cb, (k + old_abs_of(ctx)).push(
                AbsIndex(BackingIndex(i as u32)),
            ), (fuel - 1) as nat)
            &&& cloned(b1, b2, c1, cb, (fuel - 1) as nat, k, nb)
        }),
        b3 == b2.update(b0.len() as int, Node::Abs(Abstraction { body: BackingIndex(nb as u32), entrance: b2[b0.len() as int]->Abs_0.entrance })),
        b2[b0.len() as int] is Abs,
    ensures
        cloned(b0, b3, ctx, i, fuel, k, b0.len() as int),
{
    let f1 = (fuel - 1) as nat;
    let cb = b0[i]->Abs_0.body.0 as int;
    let lo = b0.len() as int;
    let hi = b3.len() as int;
    let me = AbsIndex(BackingIndex(i as u32));
    let na = AbsIndex(BackingIndex(lo as u32));
    let c1 = ctx.push((me, na));
    let nc = new_abs_of(ctx);
    let kn1 = k + new_abs_of(c1);
    lemma_set_children(b2, b3, lo);
    lemma_appended_trans(b0, b1, b2);
    lemma_edits_trans(b0, b2, b3);
    assert forall|m: int| 0 <= m < b0.len() implies shape(#[trigger] b3[m]) == shape(b0[m]) by {
        assert(b3[m] == b2[m]);
    }
    assert(appended_keeping(b0, b3));
    assert(new_abs_of(c1) =~= nc.push(na));
    assert((k + nc).push(na) =~= kn1);
    assert forall|m: int| lo + 1 <= m < hi implies shape(#[trigger] b3[m]) == shape(b2[m]) by {
        assert(b3[m] == b2[m]);
    }
    lemma_view_keep(b2, b3, nb, lo + 1, hi, f1, kn1);
    lemma_within_widen(b3, nb, lo + 1, hi, f1, lo, hi, f1);
    lemma_within_reach(b2, nb, lo + 1, hi, f1);
    crate::flat_tree::lemma_within_widen(b2, nb, lo + 1, hi, f1, 0, b2.len() as int, f1);
    assert forall|m: int| reach(b2, nb, f1).contains(m) implies 0 <= m < b3.len() && shape(#[trigger] b3[m]) == shape(b2[m]) by {
        assert(b3[m] == b2[m]);
    }
    lemma_reach_keep(b2, b3, nb, f1);
    lemma_within_reach(b3, nb, lo + 1, hi, f1);
    assert(b3[lo] == Node::Abs(Abstraction { body: BackingIndex(nb as u32), entrance: b2[lo]->Abs_0.entrance }));
    assert(node_view(b3, lo, k + nc, fuel) == node_view(b0, i, k + old_abs_of(ctx), fuel));
}

/// The copy of an application: its appended copy at `lo`, given its children copied at `nf` and
/// `na`.
pub proof fn lemma_app_done(
    b0: Seq<Node>,
    b1: Seq<Node>,
    b2: Seq<Node>,
    b3: Seq<Node>,
    b4: Seq<Node>,
    ctx: Seq<(AbsIndex, AbsIndex)>,
    i: int,
    fuel: nat,
    k: Seq<AbsIndex>,
    lo0: int,
    nf: int,
    na: int,
)
    requires
        clone_ready(b0, ctx, i, fuel, k, lo0),
        b0[i] is App,
        b1 == b0.push(Node::App(Application { func: BackingIndex::dummy(), arg: BackingIndex::dummy() })),
        ({
            let f = b0[i]->App_0.func.0 as int;
            let a = b0[i]->App_0.arg.0 as int;
            let f1 = (fuel - 1) as nat;
            let ko = k + old_abs_of(ctx);
            &&& cloned(b1, b2, ctx, f, f1, k, nf)
            &&& node_view(b1, f, ko, f1) == node_view(b0, f, ko, f1)
            &&& reach_size(b1, f, f1) == reach_size(b0, f, f1)
            &&& cloned(b2, b3, ctx, a, f1, k, na)
            &&& node_view(b2, a, ko, f1) == node_view(b0, a, ko, f1)
            &&& reach_size(b2, a, f1) == reach_size(b0, a, f1)
        }),
        b3[b0.len() as int] is App,
        b4 == b3.update(b0.len() as int, Node::App(Application { func: BackingIndex(nf as u32), arg: BackingIndex(na as u32) })),
    ensures
        cloned(b0, b4, ctx, i, fuel, k, b0.len() as int),
{
    let f1 = (fuel - 1) as nat;
    let lo = b0.len() as int;
    let mid = b2.len() as int;
    let hi = b4.len() as int;
    let kn = k + new_abs_of(ctx);
    lemma_set_children_append(b0, b1);
    lemma_set_children(b3, b4, lo);
    lemma_appended_trans(b0, b1, b2);
    lemma_appended_trans(b0, b2, b3);
    lemma_edits_trans(b0, b3, b4);
    assert forall|m: int| 0 <= m < b0.len() implies shape(#[trigger] b4[m]) == shape(b0[m]) by {
        assert(b4[m] == b3[m]);
    }
    assert(appended_keeping(b0, b4));
    assert forall|m: int| lo + 1 <= m < mid implies shape(#[trigger] b3[m]) == shape(b2[m]) by {}
    lemma_view_keep(b2, b3, nf, lo + 1, mid, f1, kn);
    assert forall|m: int| lo + 1 <= m < hi implies shape(#[trigger] b4[m]) == shape(b3[m]) by {
        assert(b4[m] == b3[m]);
    }
    lemma_view_keep(b3, b4, nf, lo + 1, mid, f1, kn);
    lemma_view_keep(b3, b4, na, mid, hi, f1, kn);
    lemma_within_reach(b4, nf, lo + 1, mid, f1);
    lemma_within_reach(b4, na, mid, hi, f1);
    lemma_within_widen(b4, nf, lo + 1, mid, f1, lo, hi, f1);
    lemma_within_widen(b4, na, mid, hi, f1, lo, hi, f1);
    lemma_within_reach(b2, nf, lo + 1, mid, f1);
    lemma_within_widen(b2, nf, lo + 1, mid, f1, 0, b2.len() as int, f1);
    assert forall|m: int| reach(b2, nf, f1).contains(m) implies 0 <= m < b4.len() && shape(#[trigger] b4[m]) == shape(b2[m]) by {
        assert(b4[m] == b3[m]);
        assert(shape(b3[m]) == shape(b2[m]));
    }
    lemma_reach_keep(b2, b4, nf, f1);
    lemma_within_reach(b3, na, mid, hi, f1);
    lemma_within_widen(b3, na, mid, hi, f1, 0, b3.len() as int, f1);
    assert forall|m: int| reach(b3, na, f1).contains(m) implies 0 <= m < b4.len() && shape(#[trigger] b4[m]) == shape(b3[m]) by {
        assert(b4[m] == b3[m]);
    }
    lemma_reach_keep(b3, b4, na, f1);
    assert(reach(b4, nf, f1).disjoint(reach(b4, na, f1)));
    assert(b4[lo] == Node::App(Application { func: BackingIndex(nf as u32), arg: BackingIndex(na as u32) }));
    assert(is_tree(b4, lo, fuel));
    assert(node_view(b4, lo, kn, fuel) == node_view(b0, i, k + old_abs_of(ctx), fuel));
}


/// The abstraction whose contour a copied variable joins: the copy of its binder when the
/// binder was met in `ctx`, the binder itself otherwise.
pub open spec fn clone_target(ctx: Seq<(AbsIndex, AbsIndex)>, x: AbsIndex) -> AbsIndex {
    if first_pos(old_abs_of(ctx), x) >= 0 {
        ctx[first_pos(old_abs_of(ctx), x)].1
    } else {
        x
    }
}

/// The contour that a copied variable joins starts well.
pub proof fn lemma_target_ok(b0: Seq<Node>, ctx: Seq<(AbsIndex, AbsIndex)>, i: int, fuel: nat, k: Seq<AbsIndex>, lo0: int)
    requires
        clone_ready(b0, ctx, i, fuel, k, lo0),
        b0[i] is BoundVar,
    ensures
        binder(b0, b0[i]->BoundVar_0) is Some,
        entrance_ok(b0, clone_target(ctx, binder(b0, b0[i]->BoundVar_0)->0).0.0 as int),
{
    let oc = old_abs_of(ctx);
    let x = binder(b0, b0[i]->BoundVar_0)->0;
    lemma_reach_basics(b0, i, fuel);
    lemma_first_pos_append(k, oc, x);
    lemma_first_pos_found(k, x);
    lemma_first_pos_found(oc, x);
    if first_pos(oc, x) < 0 {
        let j = first_pos(k, x);
        assert(k[j] == x);
        assert(entrance_ok(b0, k[j].0.0 as int));
    }
}

/// The copy of a variable: a new variable at `lo` put into the contour of its target.
pub proof fn lemma_var_done(
    b0: Seq<Node>,
    b1: Seq<Node>,
    b: Seq<Node>,
    ctx: Seq<(AbsIndex, AbsIndex)>,
    i: int,
    fuel: nat,
    k: Seq<AbsIndex>,
    lo0: int,
    nv: BoundVariable,
)
    requires
        clone_ready(b0, ctx, i, fuel, k, lo0),
        b0[i] is BoundVar,
        binder(b0, b0[i]->BoundVar_0) is Some,
        b1 == b0.push(Node::BoundVar(nv)),
        b == inserted(b1, clone_target(ctx, binder(b0, b0[i]->BoundVar_0)->0), BoundVarIndex(BackingIndex(b0.len() as u32))),
    ensures
        cloned(b0, b, ctx, i, fuel, k, b0.len() as int),
{
    let oc = old_abs_of(ctx);
    let nc = new_abs_of(ctx);
    let lo = b0.len() as int;
    let x = binder(b0, b0[i]->BoundVar_0)->0;
    let y = clone_target(ctx, x);
    let t = y.0.0 as int;
    lemma_target_ok(b0, ctx, i, fuel, k, lo0);
    lemma_reach_basics(b0, i, fuel);
    assert(forall|m: int| 0 <= m < lo ==> #[trigger] b1[m] == b0[m]);
    assert(y == AbsIndex(BackingIndex(t as u32)));
    lemma_insert(b0, b1, b, t, lo);
    let kn = k + nc;
    let ko = k + oc;
    lemma_first_pos_append(k, oc, x);
    lemma_first_pos_append(k, nc, y);
    lemma_first_pos_found(k, x);
    lemma_first_pos_found(oc, x);
    lemma_first_pos_found(k, y);
    lemma_first_pos_found(nc, y);
    if first_pos(oc, x) >= 0 {
        let p = first_pos(oc, x);
        assert(nc[p] == ctx[p].1);
        assert(first_pos(k, x) < 0) by {
            if first_pos(k, x) >= 0 {
                assert(k[first_pos(k, x)] != oc[p]);
            }
        }
        assert(first_pos(k, y) < 0) by {
            if first_pos(k, y) >= 0 {
                assert(k[first_pos(k, y)].0.0 < lo0);
                assert(nc[p].0.0 >= lo0);
            }
        }
        assert forall|j: int| 0 <= j < p implies nc[j] != y by {
            assert(nc[j] == ctx[j].1);
            assert(ctx[j].1.0.0 < ctx[p].1.0.0);
        }
        lemma_first_pos(nc, y, p);
        assert(first_pos(kn, y) == k.len() + p);
        assert(first_pos(ko, x) == k.len() + p);
    } else {
        assert(first_pos(k, x) >= 0);
        assert(first_pos(kn, y) == first_pos(k, x));
    }
    assert(node_view(b, lo, kn, fuel) == node_view(b0, i, ko, fuel));
    assert(within(b, lo, lo, b.len() as int, fuel));
}

/// The copy of a free variable: the same node appended at `lo`.
pub proof fn lemma_free_done(b0: Seq<Node>, b: Seq<Node>, ctx: Seq<(AbsIndex, AbsIndex)>, i: int, fuel: nat, k: Seq<AbsIndex>, lo0: int)
    requires
        clone_ready(b0, ctx, i, fuel, k, lo0),
        b0[i] is FreeVar,
        b == b0.push(b0[i]),
    ensures
        cloned(b0, b, ctx, i, fuel, k, b0.len() as int),
{
    lemma_set_children_append(b0, b);
    assert(old_abs_of(ctx).len() == new_abs_of(ctx).len());
}

} // verus!
