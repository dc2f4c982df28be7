//! The links of the contours while a term is laid out: the open tail of each contour being
//! built, and what laying out nodes keeps of the contours already built.
use vstd::prelude::*;

use crate::contour_edit::{
    contours_linked, entrances_ok, inserted, lemma_insert, lemma_set_children, lemma_set_children_append, linked_back,
};
use crate::flat_tree::{
    binder, chain_abs, entrance_ok, flat_chain_ok, is_tree, lemma_within_widen, reach, shape, skel, tail_ok, within, AbsIndex,
    Abstraction, BackingIndex, BoundVarIndex, BoundVariable, Node, PrevIndex,
};
use crate::tree_facts::{lemma_reach_keep, lemma_tree_fuel, lemma_within_reach};

verus! {

/// The tail of each contour being laid out is open: an abstraction without an entrance yet, or
/// a variable without a `next` link.
pub open spec fn tails_open(b: Seq<Node>, chain: Seq<(AbsIndex, PrevIndex)>) -> bool {
    forall|k: int|
        0 <= k < chain.len() ==> match (#[trigger] chain[k]).1 {
            PrevIndex::Abs(x) => x.0.0 < b.len() && b[x.0.0 as int] is Abs && b[x.0.0 as int]->Abs_0.entrance is None,
            PrevIndex::Var(v) => v.0.0 < b.len() && b[v.0.0 as int] is BoundVar && b[v.0.0 as int]->BoundVar_0.next is None,
        }
}

/// Laying out from `b0` to `b` left the tails of `chain` open, and kept every contour starting
/// well and every variable linked back, where they were.
#[verifier::opaque]
pub open spec fn links_kept(b0: Seq<Node>, b: Seq<Node>, chain: Seq<(AbsIndex, PrevIndex)>) -> bool {
    &&& tails_open(b, chain)
    &&& contours_linked(b0) ==> contours_linked(b)
    &&& entrances_ok(b0) ==> entrances_ok(b)
}

/// What `links_kept` says of the tails.
pub proof fn lemma_links_tails(b0: Seq<Node>, b: Seq<Node>, chain: Seq<(AbsIndex, PrevIndex)>)
    requires
        links_kept(b0, b, chain),
    ensures
        tails_open(b, chain),
{
    reveal(links_kept);
}

/// What `links_kept` says of the contours.
pub proof fn lemma_links_contours(b0: Seq<Node>, b: Seq<Node>, chain: Seq<(AbsIndex, PrevIndex)>)
    requires
        links_kept(b0, b, chain),
    ensures
        contours_linked(b0) ==> contours_linked(b),
        entrances_ok(b0) ==> entrances_ok(b),
{
    reveal(links_kept);
}

/// Appending a node that is neither a variable nor an abstraction with an entrance keeps the
/// links, and the tails when they were open.
pub proof fn lemma_append_links(b0: Seq<Node>, b1: Seq<Node>, chain: Seq<(AbsIndex, PrevIndex)>)
    requires
        tails_open(b0, chain),
        b1.len() == b0.len() + 1,
        forall|m: int| 0 <= m < b0.len() ==> #[trigger] b1[m] == b0[m],
        !(b1[b0.len() as int] is BoundVar),
        b1[b0.len() as int] matches Node::Abs(x) ==> x.entrance is None,
    ensures
        links_kept(b0, b1, chain),
{
    reveal(links_kept);
    lemma_tails_append(b0, b1, chain);
    lemma_set_children_append(b0, b1);
}

/// The links kept across an abstraction laid out at `lo`: its node appended without entrance,
/// its body laid out under one more contour, that contour closed and the body attached.
pub proof fn lemma_abs_links(
    b0: Seq<Node>, b1: Seq<Node>, b2: Seq<Node>, b3: Seq<Node>,
    c0: Seq<(AbsIndex, PrevIndex)>, c2: Seq<(AbsIndex, PrevIndex)>, c3: Seq<(AbsIndex, PrevIndex)>,
)
    requires
        tails_open(b0, c0),
        flat_chain_ok(b0, c0, b0.len() as int),
        b0.len() < u32::MAX,
        b1.len() == b0.len() + 1,
        forall|m: int| 0 <= m < b0.len() ==> #[trigger] b1[m] == b0[m],
        b1[b0.len() as int] matches Node::Abs(x) && x.entrance is None,
        links_kept(b1, b2, c2),
        c2.len() > 0,
        c3 =~= c2.drop_last(),
        chain_abs(c3) == chain_abs(c0),
        flat_chain_ok(b3, c3, b3.len() as int),
        b2.len() == b3.len(),
        b0.len() < b2.len(),
        forall|m: int| 0 <= m < b2.len() && m != b0.len() ==> #[trigger] b3[m] == b2[m],
        b2[b0.len() as int] matches Node::Abs(x) && b3[b0.len() as int] matches Node::Abs(y) && x.entrance == y.entrance,
    ensures
        links_kept(b0, b3, c3),
{
    reveal(links_kept);
    let lo = b0.len() as int;
    assert(tails_open(b3, c3)) by {
        lemma_tails_pop(b2, c2, c3);
        assert forall|k: int| 0 <= k < c3.len() implies (#[trigger] c3[k]).1 != PrevIndex::Abs(AbsIndex(BackingIndex(lo as u32))) by {
            assert(chain_abs(c3).len() == c3.len());
            assert(chain_abs(c0).len() == c0.len());
            assert(chain_abs(c3)[k] == c3[k].0);
            assert(chain_abs(c0)[k] == c0[k].0);
            assert(c0[k].0.0.0 < lo);
            assert(tail_ok(b3, c3[k]));
        }
        lemma_tails_set(b2, b3, c3, lo);
    }
    assert((contours_linked(b0) ==> contours_linked(b3)) && (entrances_ok(b0) ==> entrances_ok(b3))) by {
        lemma_set_children_append(b0, b1);
        lemma_set_children(b2, b3, lo);
    }
}

/// The links kept across an application laid out at `lo`: its node appended, its function and
/// its argument laid out, and both attached.
pub proof fn lemma_app_links(
    b0: Seq<Node>, b1: Seq<Node>, b2: Seq<Node>, b3: Seq<Node>, b4: Seq<Node>,
    c2: Seq<(AbsIndex, PrevIndex)>, c3: Seq<(AbsIndex, PrevIndex)>,
)
    requires
        b1.len() == b0.len() + 1,
        forall|m: int| 0 <= m < b0.len() ==> #[trigger] b1[m] == b0[m],
        b1[b0.len() as int] is App,
        links_kept(b1, b2, c2),
        links_kept(b2, b3, c3),
        b3.len() == b4.len(),
        b0.len() < b3.len(),
        forall|m: int| 0 <= m < b3.len() && m != b0.len() ==> #[trigger] b4[m] == b3[m],
        b3[b0.len() as int] is App,
        b4[b0.len() as int] is App,
    ensures
        links_kept(b0, b4, c3),
{
    reveal(links_kept);
    assert(tails_open(b4, c3)) by {
        lemma_tails_set(b3, b4, c3, b0.len() as int);
    }
    assert((contours_linked(b0) ==> contours_linked(b4)) && (entrances_ok(b0) ==> entrances_ok(b4))) by {
        lemma_set_children_append(b0, b1);
        lemma_set_children(b3, b4, b0.len() as int);
    }
}

/// Appending a node keeps the tails open.
pub proof fn lemma_tails_append(b0: Seq<Node>, b1: Seq<Node>, c: Seq<(AbsIndex, PrevIndex)>)
    requires
        tails_open(b0, c),
        b1.len() == b0.len() + 1,
        forall|k: int| 0 <= k < b0.len() ==> #[trigger] b1[k] == b0[k],
    ensures
        tails_open(b1, c),
{
    assert forall|k: int| 0 <= k < c.len() implies match (#[trigger] c[k]).1 {
        PrevIndex::Abs(x) => x.0.0 < b1.len() && b1[x.0.0 as int] is Abs && b1[x.0.0 as int]->Abs_0.entrance is None,
        PrevIndex::Var(v) => v.0.0 < b1.len() && b1[v.0.0 as int] is BoundVar && b1[v.0.0 as int]->BoundVar_0.next is None,
    } by {
        match c[k].1 {
            PrevIndex::Abs(x) => { assert(b1[x.0.0 as int] == b0[x.0.0 as int]); },
            PrevIndex::Var(v) => { assert(b1[v.0.0 as int] == b0[v.0.0 as int]); },
        }
    }
}

/// Appending an abstraction without entrance and opening its contour keeps the tails open.
pub proof fn lemma_tails_push(b0: Seq<Node>, b1: Seq<Node>, c: Seq<(AbsIndex, PrevIndex)>)
    requires
        tails_open(b0, c),
        b0.len() < u32::MAX,
        b1 == b0.push(Node::Abs(Abstraction { body: BackingIndex::dummy(), entrance: None })),
    ensures
        tails_open(b1, c.push((AbsIndex(BackingIndex(b0.len() as u32)), PrevIndex::Abs(AbsIndex(BackingIndex(b0.len() as u32)))))),
{
    lemma_tails_append(b0, b1, c);
    let c1 = c.push((AbsIndex(BackingIndex(b0.len() as u32)), PrevIndex::Abs(AbsIndex(BackingIndex(b0.len() as u32)))));
    assert forall|k: int| 0 <= k < c1.len() implies match (#[trigger] c1[k]).1 {
        PrevIndex::Abs(x) => x.0.0 < b1.len() && b1[x.0.0 as int] is Abs && b1[x.0.0 as int]->Abs_0.entrance is None,
        PrevIndex::Var(v) => v.0.0 < b1.len() && b1[v.0.0 as int] is BoundVar && b1[v.0.0 as int]->BoundVar_0.next is None,
    } by {
        if k < c.len() {
            assert(c1[k] == c[k]);
        }
    }
}

/// Closing the last contour keeps the others open.
pub proof fn lemma_tails_pop(b: Seq<Node>, c2: Seq<(AbsIndex, PrevIndex)>, c3: Seq<(AbsIndex, PrevIndex)>)
    requires
        tails_open(b, c2),
        c2.len() > 0,
        c3 =~= c2.drop_last(),
    ensures
        tails_open(b, c3),
{
    assert forall|k: int| 0 <= k < c3.len() implies match (#[trigger] c3[k]).1 {
        PrevIndex::Abs(x) => x.0.0 < b.len() && b[x.0.0 as int] is Abs && b[x.0.0 as int]->Abs_0.entrance is None,
        PrevIndex::Var(v) => v.0.0 < b.len() && b[v.0.0 as int] is BoundVar && b[v.0.0 as int]->BoundVar_0.next is None,
    } by {
        assert(c3[k] == c2[k]);
    }
}

/// Setting the children of the node at `lo`, which no open tail names, keeps the tails open.
pub proof fn lemma_tails_set(b0: Seq<Node>, b: Seq<Node>, c: Seq<(AbsIndex, PrevIndex)>, lo: int)
    requires
        tails_open(b0, c),
        b.len() == b0.len(),
        forall|k: int| 0 <= k < b0.len() && k != lo ==> #[trigger] b[k] == b0[k],
        0 <= lo < b0.len(),
        b0[lo] is App || (b0[lo] is Abs && b[lo] is Abs && b[lo]->Abs_0.entrance == b0[lo]->Abs_0.entrance
            && forall|k: int| 0 <= k < c.len() ==> (#[trigger] c[k]).1 != PrevIndex::Abs(AbsIndex(BackingIndex(lo as u32)))),
    ensures
        tails_open(b, c),
{
    assert forall|k: int| 0 <= k < c.len() implies match (#[trigger] c[k]).1 {
        PrevIndex::Abs(x) => x.0.0 < b.len() && b[x.0.0 as int] is Abs && b[x.0.0 as int]->Abs_0.entrance is None,
        PrevIndex::Var(v) => v.0.0 < b.len() && b[v.0.0 as int] is BoundVar && b[v.0.0 as int]->BoundVar_0.next is None,
    } by {
        match c[k].1 {
            PrevIndex::Abs(x) => {
                if x.0.0 as int != lo {
                    assert(b[x.0.0 as int] == b0[x.0.0 as int]);
                }
            },
            PrevIndex::Var(v) => {
                assert(v.0.0 as int != lo);
                assert(b[v.0.0 as int] == b0[v.0.0 as int]);
            },
        }
    }
}

/// Appending a variable at the open tail of the contour of entry `idx` keeps the tails open,
/// every contour starting well and every variable linked back.
pub proof fn lemma_append_var(b0: Seq<Node>, tv: BoundVariable, b2: Seq<Node>, c0: Seq<(AbsIndex, PrevIndex)>, c1: Seq<(AbsIndex, PrevIndex)>, idx: int)
    requires
        b0.len() < u32::MAX,
        flat_chain_ok(b0, c0, b0.len() as int),
        tails_open(b0, c0),
        0 <= idx < c0.len(),
        tv.prev == c0[idx].1.index_spec(),
        tv.next is None,
        ({
            let nv = BoundVarIndex(BackingIndex(b0.len() as u32));
            let pi = c0[idx].1.index_spec().0 as int;
            b2 == b0.push(Node::BoundVar(tv)).update(
                pi,
                match b0[pi] {
                    Node::BoundVar(v) => Node::BoundVar(BoundVariable { next: Some(nv), ..v }),
                    Node::Abs(a) => Node::Abs(Abstraction { entrance: Some(nv), ..a }),
                    n => n,
                },
            )
        }),
        c1 == c0.update(idx, (c0[idx].0, PrevIndex::Var(BoundVarIndex(BackingIndex(b0.len() as u32))))),
    ensures
        tails_open(b2, c1),
        contours_linked(b0) ==> contours_linked(b2),
        entrances_ok(b0) ==> entrances_ok(b2),
{
    let nvi = b0.len() as int;
    let nv = BoundVarIndex(BackingIndex(nvi as u32));
    let a = c0[idx].0;
    let pi = c0[idx].1.index_spec().0 as int;
    assert(tail_ok(b0, c0[idx]));
    assert(0 <= pi < b0.len());
    assert(b2[nvi] == Node::BoundVar(tv));
    assert forall|k: int| 0 <= k < c1.len() implies match (#[trigger] c1[k]).1 {
        PrevIndex::Abs(x) => x.0.0 < b2.len() && b2[x.0.0 as int] is Abs && b2[x.0.0 as int]->Abs_0.entrance is None,
        PrevIndex::Var(v) => v.0.0 < b2.len() && b2[v.0.0 as int] is BoundVar && b2[v.0.0 as int]->BoundVar_0.next is None,
    } by {
        if k != idx {
            assert(c1[k] == c0[k]);
            assert(tail_ok(b0, c0[k]));
            assert(c0[k].0 != a) by {
                if k < idx {
                    assert(c0[k].0.0.0 < c0[idx].0.0.0);
                } else {
                    assert(c0[idx].0.0.0 < c0[k].0.0.0);
                }
            }
            match c0[k].1 {
                PrevIndex::Abs(x) => {
                    assert(x.0.0 as int != pi) by {
                        if let PrevIndex::Abs(y) = c0[idx].1 {
                            assert(y == a);
                        }
                    }
                    assert(b2[x.0.0 as int] == b0[x.0.0 as int]);
                },
                PrevIndex::Var(v) => {
                    assert(v.0.0 as int != pi) by {
                        if let PrevIndex::Var(w) = c0[idx].1 {
                            if w == v {
                                assert(binder(b0, b0[v.0.0 as int]->BoundVar_0) == Some(a));
                            }
                        }
                    }
                    assert(b2[v.0.0 as int] == b0[v.0.0 as int]);
                },
            }
        }
    }
    if contours_linked(b0) {
        assert forall|k: int| 0 <= k < b2.len() && b2[k] is BoundVar implies #[trigger] linked_back(b2, k) by {
            if k < b0.len() {
                assert(linked_back(b0, k));
                let q = b0[k]->BoundVar_0.prev.0 as int;
                if k != pi {
                    assert(b2[k] == b0[k]);
                } else {
                    assert(b2[k]->BoundVar_0.prev == b0[k]->BoundVar_0.prev);
                }
                if q == pi {
                    assert(false);
                } else {
                    assert(b2[q] == b0[q]);
                }
            }
        }
    }
    if entrances_ok(b0) {
        assert forall|k: int| 0 <= k < b2.len() && b2[k] is Abs implies #[trigger] entrance_ok(b2, k) by {
            assert(k < b0.len());
            if k != pi {
                assert(b2[k] == b0[k]);
                assert(entrance_ok(b0, k));
                if let Some(e) = b0[k]->Abs_0.entrance {
                    let ei = e.0.0 as int;
                    if ei == pi {
                        assert(b2[ei]->BoundVar_0.prev == b0[ei]->BoundVar_0.prev);
                    } else {
                        assert(b2[ei] == b0[ei]);
                    }
                }
            }
        }
    }
}

/// A subtree laid out in `[lo, hi)` of `b1` stays the same tree when `b2` keeps the shapes of
/// the nodes in that range.
pub proof fn lemma_tree_moved(b1: Seq<Node>, b2: Seq<Node>, i: int, lo: int, hi: int, fuel: nat)
    requires
        is_tree(b1, i, fuel),
        within(b1, i, lo, hi, fuel),
        0 <= lo,
        hi <= b1.len(),
        hi <= b2.len(),
        forall|k: int| lo <= k < hi ==> shape(#[trigger] b2[k]) == shape(b1[k]),
    ensures
        is_tree(b2, i, fuel),
        reach(b2, i, fuel) == reach(b1, i, fuel),
        forall|k: int| #[trigger] reach(b2, i, fuel).contains(k) ==> lo <= k < hi,
{
    lemma_within_reach(b1, i, lo, hi, fuel);
    lemma_within_widen(b1, i, lo, hi, fuel, 0, b1.len() as int, fuel);
    lemma_reach_keep(b1, b2, i, fuel);
}

/// An abstraction at `lo` whose body is a tree laid out after it is a tree.
pub proof fn lemma_abs_tree(b2: Seq<Node>, b3: Seq<Node>, lo: int, bi: int, fb: nat)
    requires
        is_tree(b2, bi, fb),
        within(b2, bi, lo + 1, b2.len() as int, fb),
        0 <= lo < b2.len(),
        b3.len() == b2.len(),
        forall|m: int| 0 <= m < b2.len() && m != lo ==> #[trigger] b3[m] == b2[m],
        b3[lo] matches Node::Abs(a) && a.body.0 == bi,
    ensures
        is_tree(b3, lo, fb + 1),
{
    assert forall|k: int| lo + 1 <= k < b2.len() implies shape(#[trigger] b3[k]) == shape(b2[k]) by {
        assert(b3[k] == b2[k]);
    }
    lemma_tree_moved(b2, b3, bi, lo + 1, b2.len() as int, fb);
}

/// An application at `lo` whose function and argument are trees laid out after it, one after
/// the other, is a tree.
pub proof fn lemma_app_tree(
    b2: Seq<Node>, b3: Seq<Node>, b4: Seq<Node>, lo: int, mid: int, fi: int, ai: int, ff: nat, fa: nat,
)
    requires
        is_tree(b2, fi, ff),
        within(b2, fi, lo + 1, mid, ff),
        mid == b2.len(),
        0 <= lo < mid,
        is_tree(b3, ai, fa),
        within(b3, ai, mid, b3.len() as int, fa),
        b2.len() <= b3.len(),
        forall|k: int| 0 <= k < b2.len() ==> skel(#[trigger] b3[k]) == skel(b2[k]),
        b4.len() == b3.len(),
        forall|m: int| 0 <= m < b3.len() && m != lo ==> #[trigger] b4[m] == b3[m],
        b4[lo] matches Node::App(a) && a.func.0 == fi && a.arg.0 == ai,
    ensures
        is_tree(b4, lo, ff + fa + 1),
{
    assert forall|k: int| lo + 1 <= k < mid implies shape(#[trigger] b4[k]) == shape(b2[k]) by {
        assert(b4[k] == b3[k]);
        assert(skel(b3[k]) == skel(b2[k]));
    }
    lemma_tree_moved(b2, b4, fi, lo + 1, mid, ff);
    assert forall|k: int| mid <= k < b3.len() implies shape(#[trigger] b4[k]) == shape(b3[k]) by {
        assert(b4[k] == b3[k]);
    }
    lemma_tree_moved(b3, b4, ai, mid, b3.len() as int, fa);
    lemma_tree_fuel(b4, fi, ff, ff + fa);
    lemma_tree_fuel(b4, ai, fa, ff + fa);
    assert(reach(b4, fi, ff + fa).disjoint(reach(b4, ai, ff + fa)));
}

/// From `b0` to `b`, every contour starting well and every variable linked back were kept,
/// where they were.
#[verifier::opaque]
pub open spec fn contours_kept(b0: Seq<Node>, b: Seq<Node>) -> bool {
    &&& contours_linked(b0) ==> contours_linked(b)
    &&& entrances_ok(b0) ==> entrances_ok(b)
}

/// Keeping the contours composes.
pub proof fn lemma_contours_kept_trans(b0: Seq<Node>, b1: Seq<Node>, b2: Seq<Node>)
    requires
        contours_kept(b0, b1),
        contours_kept(b1, b2),
    ensures
        contours_kept(b0, b2),
{
    reveal(contours_kept);
}

/// What `contours_kept` says.
pub proof fn lemma_contours_kept_result(b0: Seq<Node>, b: Seq<Node>)
    requires
        contours_kept(b0, b),
    ensures
        contours_linked(b0) ==> contours_linked(b),
        entrances_ok(b0) ==> entrances_ok(b),
{
    reveal(contours_kept);
}

/// Appending a node that is not a variable, and no abstraction with an entrance, keeps the
/// contours.
pub proof fn lemma_append_kept(b0: Seq<Node>, b1: Seq<Node>)
    requires
        b1.len() == b0.len() + 1,
        forall|m: int| 0 <= m < b0.len() ==> #[trigger] b1[m] == b0[m],
        !(b1[b0.len() as int] is BoundVar),
        b1[b0.len() as int] matches Node::Abs(x) ==> x.entrance is None,
    ensures
        contours_kept(b0, b1),
{
    reveal(contours_kept);
    lemma_set_children_append(b0, b1);
}

/// Setting the children of the application or abstraction at `p` keeps the contours.
pub proof fn lemma_set_kept(b0: Seq<Node>, b: Seq<Node>, p: int)
    requires
        0 <= p < b0.len(),
        b0[p] is App || b0[p] is Abs,
        b.len() == b0.len(),
        forall|m: int| 0 <= m < b0.len() && m != p ==> #[trigger] b[m] == b0[m],
        b0[p] is App ==> b[p] is App,
        b0[p] matches Node::Abs(a) ==> (b[p] matches Node::Abs(a2) && a2.entrance == a.entrance),
    ensures
        contours_kept(b0, b),
{
    reveal(contours_kept);
    lemma_set_children(b0, b, p);
}

/// Putting an appended variable at the front of a contour that starts well keeps the contours.
pub proof fn lemma_insert_kept(b0: Seq<Node>, b1: Seq<Node>, b: Seq<Node>, a: int, nv: int)
    requires
        nv == b0.len(),
        b0.len() + 1 <= u32::MAX,
        b1.len() == b0.len() + 1,
        forall|k: int| 0 <= k < nv ==> #[trigger] b1[k] == b0[k],
        b1[nv] is BoundVar,
        entrance_ok(b0, a),
        b == inserted(b1, AbsIndex(BackingIndex(a as u32)), BoundVarIndex(BackingIndex(nv as u32))),
    ensures
        contours_kept(b0, b),
{
    reveal(contours_kept);
    lemma_insert(b0, b1, b, a, nv);
}

/// An application at `lo` whose function and argument are trees laid out after it, one after
/// the other, with the shapes of the function's nodes kept, is a tree.
pub proof fn lemma_app_tree_shapes(
    b2: Seq<Node>, b3: Seq<Node>, b4: Seq<Node>, lo: int, mid: int, fi: int, ai: int, ff: nat, fa: nat,
)
    requires
        is_tree(b2, fi, ff),
        within(b2, fi, lo + 1, mid, ff),
        mid == b2.len(),
        0 <= lo < mid,
        is_tree(b3, ai, fa),
        within(b3, ai, mid, b3.len() as int, fa),
        b2.len() <= b3.len(),
        forall|k: int| 0 <= k < b2.len() ==> shape(#[trigger] b3[k]) == shape(b2[k]),
        b4.len() == b3.len(),
        forall|m: int| 0 <= m < b3.len() && m != lo ==> #[trigger] b4[m] == b3[m],
        b4[lo] matches Node::App(a) && a.func.0 == fi && a.arg.0 == ai,
    ensures
        is_tree(b4, lo, ff + fa + 1),
{
    assert forall|k: int| lo + 1 <= k < mid implies shape(#[trigger] b4[k]) == shape(b2[k]) by {
        assert(b4[k] == b3[k]);
        assert(shape(b3[k]) == shape(b2[k]));
    }
    lemma_tree_moved(b2, b4, fi, lo + 1, mid, ff);
    assert forall|k: int| mid <= k < b3.len() implies shape(#[trigger] b4[k]) == shape(b3[k]) by {
        assert(b4[k] == b3[k]);
    }
    lemma_tree_moved(b3, b4, ai, mid, b3.len() as int, fa);
    lemma_tree_fuel(b4, fi, ff, ff + fa);
    lemma_tree_fuel(b4, ai, fa, ff + fa);
    assert(reach(b4, fi, ff + fa).disjoint(reach(b4, ai, ff + fa)));
}

} // verus!
