//! Facts about the nodes reached from a position of a contour `FlatTree`: how many there are,
//! which changes of the vector keep them and their view, and how a view moves when more
//! abstractions enclose it.
use vstd::prelude::*;

use crate::beta_reduce::nest;
use crate::debruijn::Debruijn;
use crate::flat_tree::{
    binder, binders_kept, first_pos, is_tree, lemma_first_pos_found, lemma_reach_basics, node_view,
    reach, shape, within, AbsIndex, BackingIndex, Node,
};
use crate::reference::{can_shift, shift_spec};

verus! {

/// The number of positions reached from `i` within `fuel` steps, counted along the tree.
pub open spec fn reach_size(b: Seq<Node>, i: int, fuel: nat) -> nat
    decreases fuel,
{
    if fuel == 0 || i < 0 || i >= b.len() {
        0
    } else {
        match b[i] {
            Node::Abs(a) => 1 + reach_size(b, a.body.0 as int, (fuel - 1) as nat),
            Node::App(a) => 1 + reach_size(b, a.func.0 as int, (fuel - 1) as nat) + reach_size(
                b,
                a.arg.0 as int,
                (fuel - 1) as nat,
            ),
            _ => 1,
        }
    }
}

/// Two sequences of abstractions without a common element.
pub open spec fn chains_disjoint(s: Seq<AbsIndex>, t: Seq<AbsIndex>) -> bool {
    forall|j: int, k: int| 0 <= j < s.len() && 0 <= k < t.len() ==> s[j] != t[k]
}

/// No element of `s` is a position in `r`.
pub open spec fn chain_avoids(s: Seq<AbsIndex>, r: Set<int>) -> bool {
    forall|j: int| 0 <= j < s.len() ==> !r.contains(#[trigger] s[j].0.0 as int)
}

/// Every element of `s` lies in `[lo, hi)`.
pub open spec fn chain_in(s: Seq<AbsIndex>, lo: int, hi: int) -> bool {
    forall|j: int| 0 <= j < s.len() ==> lo <= #[trigger] s[j].0.0 < hi
}

/// A tree's nodes lie in the vector.
pub proof fn lemma_tree_within(b: Seq<Node>, i: int, fuel: nat)
    requires
        is_tree(b, i, fuel),
    ensures
        within(b, i, 0, b.len() as int, fuel),
    decreases fuel,
{
    match b[i] {
        Node::Abs(abs) => {
            lemma_tree_within(b, abs.body.0 as int, (fuel - 1) as nat);
        },
        Node::App(app) => {
            lemma_tree_within(b, app.func.0 as int, (fuel - 1) as nat);
            lemma_tree_within(b, app.arg.0 as int, (fuel - 1) as nat);
        },
        _ => {},
    }
}

/// Every node reached from a subtree within a range lies in the range.
pub proof fn lemma_within_reach(b: Seq<Node>, i: int, lo: int, hi: int, fuel: nat)
    requires
        within(b, i, lo, hi, fuel),
    ensures
        forall|k: int| #[trigger] reach(b, i, fuel).contains(k) ==> lo <= k < hi,
    decreases fuel,
{
    match b[i] {
        Node::Abs(abs) => {
            lemma_within_reach(b, abs.body.0 as int, lo, hi, (fuel - 1) as nat);
            assert forall|k: int| #[trigger] reach(b, i, fuel).contains(k) implies lo <= k < hi by {
                if k != i {
                    assert(reach(b, abs.body.0 as int, (fuel - 1) as nat).contains(k));
                }
            }
        },
        Node::App(app) => {
            lemma_within_reach(b, app.func.0 as int, lo, hi, (fuel - 1) as nat);
            lemma_within_reach(b, app.arg.0 as int, lo, hi, (fuel - 1) as nat);
            assert forall|k: int| #[trigger] reach(b, i, fuel).contains(k) implies lo <= k < hi by {
                if k != i && !reach(b, app.func.0 as int, (fuel - 1) as nat).contains(k) {
                    assert(reach(b, app.arg.0 as int, (fuel - 1) as nat).contains(k));
                }
            }
        },
        _ => {},
    }
}

/// Once a subtree is within the vector for some fuel, more fuel changes nothing read from it.
pub proof fn lemma_within_fuel(b: Seq<Node>, i: int, f1: nat, f2: nat)
    requires
        within(b, i, 0, b.len() as int, f1),
        f1 <= f2,
    ensures
        within(b, i, 0, b.len() as int, f2),
        reach(b, i, f2) == reach(b, i, f1),
        is_tree(b, i, f2) == is_tree(b, i, f1),
        nest(b, i, f2) == nest(b, i, f1),
        reach_size(b, i, f2) == reach_size(b, i, f1),
        forall|c: Seq<AbsIndex>| #[trigger] node_view(b, i, c, f2) == node_view(b, i, c, f1),
    decreases f1,
{
    match b[i] {
        Node::Abs(abs) => {
            let c = abs.body.0 as int;
            lemma_within_fuel(b, c, (f1 - 1) as nat, (f2 - 1) as nat);
            assert forall|ch: Seq<AbsIndex>| #[trigger] node_view(b, i, ch, f2) == node_view(b, i, ch, f1) by {
                let ch2 = ch.push(AbsIndex(BackingIndex(i as u32)));
                assert(node_view(b, c, ch2, (f2 - 1) as nat) == node_view(b, c, ch2, (f1 - 1) as nat));
            }
        },
        Node::App(app) => {
            let f = app.func.0 as int;
            let a = app.arg.0 as int;
            lemma_within_fuel(b, f, (f1 - 1) as nat, (f2 - 1) as nat);
            lemma_within_fuel(b, a, (f1 - 1) as nat, (f2 - 1) as nat);
            assert forall|ch: Seq<AbsIndex>| #[trigger] node_view(b, i, ch, f2) == node_view(b, i, ch, f1) by {
                assert(node_view(b, f, ch, (f2 - 1) as nat) == node_view(b, f, ch, (f1 - 1) as nat));
                assert(node_view(b, a, ch, (f2 - 1) as nat) == node_view(b, a, ch, (f1 - 1) as nat));
            }
        },
        _ => {},
    }
}

/// What is read of the shape of the nodes reached from `i` is kept by a vector that keeps
/// their shapes.
pub proof fn lemma_reach_keep(b1: Seq<Node>, b2: Seq<Node>, i: int, fuel: nat)
    requires
        within(b1, i, 0, b1.len() as int, fuel),
        forall|k: int| reach(b1, i, fuel).contains(k) ==> 0 <= k < b2.len() && shape(#[trigger] b2[k]) == shape(b1[k]),
    ensures
        reach(b2, i, fuel) == reach(b1, i, fuel),
        is_tree(b2, i, fuel) == is_tree(b1, i, fuel),
        nest(b2, i, fuel) == nest(b1, i, fuel),
        reach_size(b2, i, fuel) == reach_size(b1, i, fuel),
        within(b2, i, 0, b2.len() as int, fuel),
    decreases fuel,
{
    lemma_reach_basics(b1, i, fuel);
    assert(shape(b2[i]) == shape(b1[i]));
    match b1[i] {
        Node::Abs(abs) => {
            let c = abs.body.0 as int;
            lemma_reach_basics(b1, c, (fuel - 1) as nat);
            lemma_reach_keep(b1, b2, c, (fuel - 1) as nat);
        },
        Node::App(app) => {
            let f = app.func.0 as int;
            let a = app.arg.0 as int;
            lemma_reach_basics(b1, f, (fuel - 1) as nat);
            lemma_reach_basics(b1, a, (fuel - 1) as nat);
            lemma_reach_keep(b1, b2, f, (fuel - 1) as nat);
            lemma_reach_keep(b1, b2, a, (fuel - 1) as nat);
        },
        _ => {},
    }
}

/// A view is kept by a vector that keeps the shapes of the nodes reached and every binder.
pub proof fn lemma_view_keep_reach(b1: Seq<Node>, b2: Seq<Node>, i: int, fuel: nat, chain: Seq<AbsIndex>)
    requires
        node_view(b1, i, chain, fuel) is Some,
        binders_kept(b1, b2),
        forall|k: int| reach(b1, i, fuel).contains(k) ==> 0 <= k < b2.len() && shape(#[trigger] b2[k]) == shape(b1[k]),
    ensures
        node_view(b2, i, chain, fuel) == node_view(b1, i, chain, fuel),
    decreases fuel,
{
    lemma_reach_basics(b1, i, fuel);
    assert(shape(b2[i]) == shape(b1[i]));
    match b1[i] {
        Node::Abs(abs) => {
            let c = abs.body.0 as int;
            lemma_reach_basics(b1, c, (fuel - 1) as nat);
            lemma_view_keep_reach(b1, b2, c, (fuel - 1) as nat, chain.push(AbsIndex(BackingIndex(i as u32))));
        },
        Node::App(app) => {
            let f = app.func.0 as int;
            let a = app.arg.0 as int;
            lemma_reach_basics(b1, f, (fuel - 1) as nat);
            lemma_reach_basics(b1, a, (fuel - 1) as nat);
            lemma_view_keep_reach(b1, b2, f, (fuel - 1) as nat, chain);
            lemma_view_keep_reach(b1, b2, a, (fuel - 1) as nat, chain);
        },
        _ => {},
    }
}

/// The first position in a concatenation.
pub proof fn lemma_first_pos_append(s: Seq<AbsIndex>, t: Seq<AbsIndex>, x: AbsIndex)
    ensures
        first_pos(s + t, x) == if first_pos(s, x) >= 0 {
            first_pos(s, x)
        } else if first_pos(t, x) >= 0 {
            s.len() + first_pos(t, x)
        } else {
            -1
        },
    decreases s.len(),
{
    lemma_first_pos_found(s, x);
    lemma_first_pos_found(t, x);
    if s.len() == 0 {
        assert(s + t =~= t);
    } else {
        assert((s + t)[0] == s[0]);
        if s[0] != x {
            assert((s + t).drop_first() =~= s.drop_first() + t);
            lemma_first_pos_append(s.drop_first(), t, x);
        }
    }
}

/// Putting the abstractions `q` between the outer abstractions `p` and the inner ones `r` of a
/// subtree that binds none of `q` raises its indices that reach past `r` by the length of `q`.
pub proof fn lemma_weaken(b: Seq<Node>, i: int, p: Seq<AbsIndex>, q: Seq<AbsIndex>, r: Seq<AbsIndex>, fuel: nat)
    requires
        b.len() <= u32::MAX,
        p.len() + q.len() + r.len() + nest(b, i, fuel) <= usize::MAX,
        node_view(b, i, p + r, fuel) is Some,
        chains_disjoint(r, p),
        chains_disjoint(r, q),
        chain_avoids(p, reach(b, i, fuel)),
        chain_avoids(q, reach(b, i, fuel)),
        can_shift(node_view(b, i, p + r, fuel)->0, q.len() as int, r.len() + 1),
    ensures
        node_view(b, i, p + q + r, fuel) == Some(shift_spec(node_view(b, i, p + r, fuel)->0, q.len() as int, r.len() + 1)),
    decreases fuel,
{
    lemma_reach_basics(b, i, fuel);
    let t = node_view(b, i, p + r, fuel)->0;
    match b[i] {
        Node::BoundVar(v) => {
            let x = binder(b, v)->0;
            lemma_first_pos_append(p, r, x);
            lemma_first_pos_append(p + q, r, x);
            lemma_first_pos_append(p, q, x);
            lemma_first_pos_found(p, x);
            lemma_first_pos_found(q, x);
            lemma_first_pos_found(r, x);
            if first_pos(p, x) >= 0 {
                let pp = first_pos(p, x);
                assert(first_pos(p + r, x) == pp);
                assert(first_pos(p + q + r, x) == pp);
                assert(t == Debruijn::Index((p.len() + r.len() - pp) as usize));
            } else {
                let pr = first_pos(r, x);
                if first_pos(q, x) >= 0 {
                    assert(r[pr] != q[first_pos(q, x)]);
                }
                assert(first_pos(p + q, x) == -1);
                assert(first_pos(p + r, x) == p.len() + pr);
                assert(first_pos(p + q + r, x) == p.len() + q.len() + pr);
                assert(t == Debruijn::Index((r.len() - pr) as usize));
            }
        },
        Node::Abs(abs) => {
            let c = abs.body.0 as int;
            let me = AbsIndex(BackingIndex(i as u32));
            lemma_reach_basics(b, c, (fuel - 1) as nat);
            assert((p + r).push(me) =~= p + r.push(me));
            assert((p + q + r).push(me) =~= p + q + r.push(me));
            assert(chains_disjoint(r.push(me), p)) by {
                assert forall|j: int, k: int| 0 <= j < r.push(me).len() && 0 <= k < p.len() implies r.push(me)[j] != p[k] by {
                    if j == r.len() {
                        assert(!reach(b, i, fuel).contains(p[k].0.0 as int));
                    } else {
                        assert(r.push(me)[j] == r[j]);
                    }
                }
            }
            assert(chains_disjoint(r.push(me), q)) by {
                assert forall|j: int, k: int| 0 <= j < r.push(me).len() && 0 <= k < q.len() implies r.push(me)[j] != q[k] by {
                    if j == r.len() {
                        assert(!reach(b, i, fuel).contains(q[k].0.0 as int));
                    } else {
                        assert(r.push(me)[j] == r[j]);
                    }
                }
            }
            assert(chain_avoids(p, reach(b, c, (fuel - 1) as nat))) by {
                assert forall|j: int| 0 <= j < p.len() implies !reach(b, c, (fuel - 1) as nat).contains(#[trigger] p[j].0.0 as int) by {
                    assert(!reach(b, i, fuel).contains(p[j].0.0 as int));
                }
            }
            assert(chain_avoids(q, reach(b, c, (fuel - 1) as nat))) by {
                assert forall|j: int| 0 <= j < q.len() implies !reach(b, c, (fuel - 1) as nat).contains(#[trigger] q[j].0.0 as int) by {
                    assert(!reach(b, i, fuel).contains(q[j].0.0 as int));
                }
            }
            lemma_weaken(b, c, p, q, r.push(me), (fuel - 1) as nat);
        },
        Node::App(app) => {
            let f = app.func.0 as int;
            let a = app.arg.0 as int;
            lemma_reach_basics(b, f, (fuel - 1) as nat);
            lemma_reach_basics(b, a, (fuel - 1) as nat);
            assert(chain_avoids(p, reach(b, f, (fuel - 1) as nat))) by {
                assert forall|j: int| 0 <= j < p.len() implies !reach(b, f, (fuel - 1) as nat).contains(#[trigger] p[j].0.0 as int) by {
                    assert(!reach(b, i, fuel).contains(p[j].0.0 as int));
                }
            }
            assert(chain_avoids(q, reach(b, f, (fuel - 1) as nat))) by {
                assert forall|j: int| 0 <= j < q.len() implies !reach(b, f, (fuel - 1) as nat).contains(#[trigger] q[j].0.0 as int) by {
                    assert(!reach(b, i, fuel).contains(q[j].0.0 as int));
                }
            }
            assert(chain_avoids(p, reach(b, a, (fuel - 1) as nat))) by {
                assert forall|j: int| 0 <= j < p.len() implies !reach(b, a, (fuel - 1) as nat).contains(#[trigger] p[j].0.0 as int) by {
                    assert(!reach(b, i, fuel).contains(p[j].0.0 as int));
                }
            }
            assert(chain_avoids(q, reach(b, a, (fuel - 1) as nat))) by {
                assert forall|j: int| 0 <= j < q.len() implies !reach(b, a, (fuel - 1) as nat).contains(#[trigger] q[j].0.0 as int) by {
                    assert(!reach(b, i, fuel).contains(q[j].0.0 as int));
                }
            }
            lemma_weaken(b, f, p, q, r, (fuel - 1) as nat);
            lemma_weaken(b, a, p, q, r, (fuel - 1) as nat);
        },
        _ => {},
    }
}


/// A tree for some fuel is one, with the same nodes and view, for more fuel.
pub proof fn lemma_tree_fuel(b: Seq<Node>, i: int, f1: nat, f2: nat)
    requires
        is_tree(b, i, f1),
        f1 <= f2,
    ensures
        is_tree(b, i, f2),
        reach(b, i, f2) == reach(b, i, f1),
        nest(b, i, f2) == nest(b, i, f1),
        reach_size(b, i, f2) == reach_size(b, i, f1),
        within(b, i, 0, b.len() as int, f2),
        forall|c: Seq<AbsIndex>| #[trigger] node_view(b, i, c, f2) == node_view(b, i, c, f1),
{
    lemma_tree_within(b, i, f1);
    lemma_within_fuel(b, i, f1, f2);
}


/// A tree that holds a term has one position per node of the term, so the term has at most
/// as many nodes as the vector.
pub proof fn lemma_tree_view_size(b: Seq<Node>, i: int, chain: Seq<AbsIndex>, fuel: nat)
    requires
        is_tree(b, i, fuel),
        node_view(b, i, chain, fuel) is Some,
    ensures
        reach(b, i, fuel).len() == node_view(b, i, chain, fuel)->0.size(),
        node_view(b, i, chain, fuel)->0.size() <= b.len(),
    decreases fuel,
{
    lemma_reach_basics(b, i, fuel);
    match b[i] {
        Node::Abs(a) => {
            lemma_tree_view_size(b, a.body.0 as int, chain.push(AbsIndex(BackingIndex(i as u32))), (fuel - 1) as nat);
            lemma_reach_basics(b, a.body.0 as int, (fuel - 1) as nat);
        },
        Node::App(a) => {
            let rf = reach(b, a.func.0 as int, (fuel - 1) as nat);
            let ra = reach(b, a.arg.0 as int, (fuel - 1) as nat);
            lemma_tree_view_size(b, a.func.0 as int, chain, (fuel - 1) as nat);
            lemma_tree_view_size(b, a.arg.0 as int, chain, (fuel - 1) as nat);
            lemma_reach_basics(b, a.func.0 as int, (fuel - 1) as nat);
            lemma_reach_basics(b, a.arg.0 as int, (fuel - 1) as nat);
            vstd::set_lib::lemma_set_disjoint_lens(rf, ra);
        },
        _ => {
            assert(reach(b, i, fuel) =~= Set::empty().insert(i));
        },
    }
    vstd::set_lib::lemma_int_range(0, b.len() as int);
    assert(reach(b, i, fuel).subset_of(vstd::set_lib::set_int_range(0, b.len() as int)));
    vstd::set_lib::lemma_len_subset(reach(b, i, fuel), vstd::set_lib::set_int_range(0, b.len() as int));
}

} // verus!
