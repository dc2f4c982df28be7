//! A lambda term stored flat in one vector, each variable holding its de Bruijn index; a
//! redex is contracted in place by substituting copies of the argument and shifting indices.
use vstd::prelude::*;

use crate::debruijn::Debruijn;
use crate::reference::{can_shift, shift_spec, subst_spec};

verus! {

/// One node of a `FlatRoot`; children are positions in the vector.
#[derive(Debug, Clone, Copy, PartialEq, Eq, Structural)]
pub enum DebruijnNode {
    Index(usize),
    Abstraction {
        body: usize,
        /// The number of times the abstraction's variable occurs in its body.
        usage: usize,
    },
    Application { func: usize, arg: usize },
}

impl Default for DebruijnNode {
    fn default() -> (r: DebruijnNode)
        ensures
            r == DebruijnNode::Index(0),
    {
        DebruijnNode::Index(0)
    }
}

/// The node a node hangs from, and by which of its edges; `None` in its place stands for the
/// root.
#[derive(Debug, Clone, Copy, PartialEq, Eq, Structural)]
pub enum Parent {
    /// The child is the body of this abstraction.
    Body(usize),
    /// The child is the function of this application.
    Func(usize),
    /// The child is the argument of this application.
    Arg(usize),
}

/// A lambda term as a vector of nodes and the position of its root.
#[derive(Debug, Clone, PartialEq, Eq)]
pub struct FlatRoot {
    pub backing: Vec<DebruijnNode>,
    pub root: usize,
}

/// The term at position `i`, unfolding at most `fuel` nodes deep; `None` when a position is
/// out of range or the fuel runs out.
pub open spec fn node_view(b: Seq<DebruijnNode>, i: int, fuel: nat) -> Option<Debruijn>
    decreases fuel,
{
    if fuel == 0 || i < 0 || i >= b.len() {
        None
    } else {
        match b[i] {
            DebruijnNode::Index(k) => Some(Debruijn::Index(k)),
            DebruijnNode::Abstraction { body, .. } => match node_view(b, body as int, (fuel - 1) as nat) {
                Some(t) => Some(Debruijn::Abstraction { body: Box::new(t) }),
                None => None,
            },
            DebruijnNode::Application { func, arg } => match (
                node_view(b, func as int, (fuel - 1) as nat),
                node_view(b, arg as int, (fuel - 1) as nat),
            ) {
                (Some(f), Some(a)) => Some(Debruijn::Application { func: Box::new(f), arg: Box::new(a) }),
                _ => None,
            },
        }
    }
}

/// The positions reached from `i` within `fuel` steps.
pub open spec fn reach(b: Seq<DebruijnNode>, i: int, fuel: nat) -> Set<int>
    decreases fuel,
{
    if fuel == 0 || i < 0 || i >= b.len() {
        Set::empty()
    } else {
        match b[i] {
            DebruijnNode::Index(_) => Set::empty().insert(i),
            DebruijnNode::Abstraction { body, .. } => reach(b, body as int, (fuel - 1) as nat).insert(i),
            DebruijnNode::Application { func, arg } => reach(b, func as int, (fuel - 1) as nat).union(
                reach(b, arg as int, (fuel - 1) as nat),
            ).insert(i),
        }
    }
}

/// The nodes reached from `i` form a tree within `fuel` steps: every position is in range and
/// no node is reached twice.
pub open spec fn is_tree(b: Seq<DebruijnNode>, i: int, fuel: nat) -> bool
    decreases fuel,
{
    &&& fuel > 0
    &&& 0 <= i < b.len()
    &&& match b[i] {
        DebruijnNode::Index(_) => true,
        DebruijnNode::Abstraction { body, .. } => is_tree(b, body as int, (fuel - 1) as nat) && !reach(
            b,
            body as int,
            (fuel - 1) as nat,
        ).contains(i),
        DebruijnNode::Application { func, arg } => {
            let rf = reach(b, func as int, (fuel - 1) as nat);
            let ra = reach(b, arg as int, (fuel - 1) as nat);
            &&& is_tree(b, func as int, (fuel - 1) as nat)
            &&& is_tree(b, arg as int, (fuel - 1) as nat)
            &&& rf.disjoint(ra)
            &&& !rf.contains(i)
            &&& !ra.contains(i)
        },
    }
}

/// Every node reached from `i` within `fuel` steps lies in `[lo, hi)`.
pub open spec fn within(b: Seq<DebruijnNode>, i: int, lo: int, hi: int, fuel: nat) -> bool
    decreases fuel,
{
    &&& fuel > 0
    &&& lo <= i < hi
    &&& i < b.len()
    &&& match b[i] {
        DebruijnNode::Index(_) => true,
        DebruijnNode::Abstraction { body, .. } => within(b, body as int, lo, hi, (fuel - 1) as nat),
        DebruijnNode::Application { func, arg } => within(b, func as int, lo, hi, (fuel - 1) as nat) && within(
            b,
            arg as int,
            lo,
            hi,
            (fuel - 1) as nat,
        ),
    }
}

/// The reached positions are in range and finite, and include `i` when it is one.
pub proof fn lemma_reach_basics(b: Seq<DebruijnNode>, i: int, fuel: nat)
    ensures
        reach(b, i, fuel).finite(),
        forall|k: int| reach(b, i, fuel).contains(k) ==> 0 <= k < b.len(),
        fuel > 0 && 0 <= i < b.len() ==> reach(b, i, fuel).contains(i),
    decreases fuel,
{
    if fuel > 0 && 0 <= i < b.len() {
        match b[i] {
            DebruijnNode::Index(_) => {},
            DebruijnNode::Abstraction { body, .. } => {
                lemma_reach_basics(b, body as int, (fuel - 1) as nat);
            },
            DebruijnNode::Application { func, arg } => {
                lemma_reach_basics(b, func as int, (fuel - 1) as nat);
                lemma_reach_basics(b, arg as int, (fuel - 1) as nat);
            },
        }
    }
}

/// A subtree within a range reaches only positions of the range.
pub proof fn lemma_within_reach(b: Seq<DebruijnNode>, i: int, lo: int, hi: int, fuel: nat)
    requires
        within(b, i, lo, hi, fuel),
    ensures
        forall|k: int| #[trigger] reach(b, i, fuel).contains(k) ==> lo <= k < hi,
    decreases fuel,
{
    match b[i] {
        DebruijnNode::Index(_) => {},
        DebruijnNode::Abstraction { body, .. } => {
            lemma_within_reach(b, body as int, lo, hi, (fuel - 1) as nat);
            assert forall|k: int| #[trigger] reach(b, i, fuel).contains(k) implies lo <= k < hi by {
                if k != i {
                    assert(reach(b, body as int, (fuel - 1) as nat).contains(k));
                }
            }
        },
        DebruijnNode::Application { func, arg } => {
            lemma_within_reach(b, func as int, lo, hi, (fuel - 1) as nat);
            lemma_within_reach(b, arg as int, lo, hi, (fuel - 1) as nat);
            assert forall|k: int| #[trigger] reach(b, i, fuel).contains(k) implies lo <= k < hi by {
                if k != i && !reach(b, func as int, (fuel - 1) as nat).contains(k) {
                    assert(reach(b, arg as int, (fuel - 1) as nat).contains(k));
                }
            }
        },
    }
}

/// A subtree within a range and some fuel is within any wider range and more fuel.
pub proof fn lemma_within_widen(b: Seq<DebruijnNode>, i: int, lo: int, hi: int, fuel: nat, lo2: int, hi2: int, fuel2: nat)
    requires
        within(b, i, lo, hi, fuel),
        lo2 <= lo,
        hi <= hi2,
        fuel <= fuel2,
    ensures
        within(b, i, lo2, hi2, fuel2),
    decreases fuel,
{
    match b[i] {
        DebruijnNode::Index(_) => {},
        DebruijnNode::Abstraction { body, .. } => {
            lemma_within_widen(b, body as int, lo, hi, (fuel - 1) as nat, lo2, hi2, (fuel2 - 1) as nat);
        },
        DebruijnNode::Application { func, arg } => {
            lemma_within_widen(b, func as int, lo, hi, (fuel - 1) as nat, lo2, hi2, (fuel2 - 1) as nat);
            lemma_within_widen(b, arg as int, lo, hi, (fuel - 1) as nat, lo2, hi2, (fuel2 - 1) as nat);
        },
    }
}

/// A tree is within the vector and has a view; more fuel changes neither its view nor its
/// positions.
pub proof fn lemma_tree_fuel(b: Seq<DebruijnNode>, i: int, f1: nat, f2: nat)
    requires
        is_tree(b, i, f1),
        f1 <= f2,
    ensures
        is_tree(b, i, f2),
        within(b, i, 0, b.len() as int, f1),
        reach(b, i, f2) == reach(b, i, f1),
        node_view(b, i, f1) is Some,
        node_view(b, i, f2) == node_view(b, i, f1),
    decreases f1,
{
    match b[i] {
        DebruijnNode::Index(_) => {},
        DebruijnNode::Abstraction { body, .. } => {
            lemma_tree_fuel(b, body as int, (f1 - 1) as nat, (f2 - 1) as nat);
        },
        DebruijnNode::Application { func, arg } => {
            lemma_tree_fuel(b, func as int, (f1 - 1) as nat, (f2 - 1) as nat);
            lemma_tree_fuel(b, arg as int, (f1 - 1) as nat, (f2 - 1) as nat);
        },
    }
}

/// Every abstraction reached from `i` within `fuel` steps records as its usage the number of
/// times its variable occurs in its body.
pub open spec fn usages_match(b: Seq<DebruijnNode>, i: int, fuel: nat) -> bool
    decreases fuel,
{
    if fuel == 0 || i < 0 || i >= b.len() {
        true
    } else {
        match b[i] {
            DebruijnNode::Index(_) => true,
            DebruijnNode::Abstraction { body, usage } => {
                &&& node_view(b, body as int, (fuel - 1) as nat) is Some
                &&& usage == crate::debruijn_flat::occurrences(node_view(b, body as int, (fuel - 1) as nat)->0, 1)
                &&& usages_match(b, body as int, (fuel - 1) as nat)
            },
            DebruijnNode::Application { func, arg } => usages_match(b, func as int, (fuel - 1) as nat) && usages_match(
                b,
                arg as int,
                (fuel - 1) as nat,
            ),
        }
    }
}

/// Two vectors that agree on `[lo, hi)` find the same usages from a node whose subtree lies
/// there.
pub proof fn lemma_usages_frame(b1: Seq<DebruijnNode>, b2: Seq<DebruijnNode>, i: int, lo: int, hi: int, fuel: nat)
    requires
        within(b1, i, lo, hi, fuel),
        hi <= b2.len(),
        forall|k: int| lo <= k < hi ==> #[trigger] b2[k] == b1[k],
    ensures
        usages_match(b2, i, fuel) == usages_match(b1, i, fuel),
    decreases fuel,
{
    assert(b2[i] == b1[i]);
    match b1[i] {
        DebruijnNode::Index(_) => {},
        DebruijnNode::Abstraction { body, .. } => {
            lemma_range_frame(b1, b2, body as int, lo, hi, (fuel - 1) as nat);
            lemma_usages_frame(b1, b2, body as int, lo, hi, (fuel - 1) as nat);
        },
        DebruijnNode::Application { func, arg } => {
            lemma_usages_frame(b1, b2, func as int, lo, hi, (fuel - 1) as nat);
            lemma_usages_frame(b1, b2, arg as int, lo, hi, (fuel - 1) as nat);
        },
    }
}

/// More fuel finds the same usages from the root of a tree.
pub proof fn lemma_usages_fuel(b: Seq<DebruijnNode>, i: int, f1: nat, f2: nat)
    requires
        is_tree(b, i, f1),
        f1 <= f2,
    ensures
        usages_match(b, i, f2) == usages_match(b, i, f1),
    decreases f1,
{
    match b[i] {
        DebruijnNode::Index(_) => {},
        DebruijnNode::Abstraction { body, .. } => {
            lemma_tree_fuel(b, body as int, (f1 - 1) as nat, (f2 - 1) as nat);
            lemma_usages_fuel(b, body as int, (f1 - 1) as nat, (f2 - 1) as nat);
        },
        DebruijnNode::Application { func, arg } => {
            lemma_usages_fuel(b, func as int, (f1 - 1) as nat, (f2 - 1) as nat);
            lemma_usages_fuel(b, arg as int, (f1 - 1) as nat, (f2 - 1) as nat);
        },
    }
}

/// Two vectors that agree on the positions a subtree reaches read the same subtree from it.
pub proof fn lemma_reach_frame(b1: Seq<DebruijnNode>, b2: Seq<DebruijnNode>, i: int, fuel: nat)
    requires
        within(b1, i, 0, b1.len() as int, fuel),
        forall|k: int| #[trigger] reach(b1, i, fuel).contains(k) ==> 0 <= k < b2.len() && b2[k] == b1[k],
    ensures
        within(b2, i, 0, b2.len() as int, fuel),
        reach(b2, i, fuel) == reach(b1, i, fuel),
        is_tree(b2, i, fuel) == is_tree(b1, i, fuel),
        node_view(b2, i, fuel) == node_view(b1, i, fuel),
    decreases fuel,
{
    lemma_reach_basics(b1, i, fuel);
    assert(b2[i] == b1[i]);
    match b1[i] {
        DebruijnNode::Index(_) => {},
        DebruijnNode::Abstraction { body, .. } => {
            assert forall|k: int| #[trigger] reach(b1, body as int, (fuel - 1) as nat).contains(k) implies 0 <= k < b2.len() && b2[k] == b1[k] by {
                assert(reach(b1, i, fuel).contains(k));
            }
            lemma_reach_frame(b1, b2, body as int, (fuel - 1) as nat);
        },
        DebruijnNode::Application { func, arg } => {
            assert forall|k: int| #[trigger] reach(b1, func as int, (fuel - 1) as nat).contains(k) implies 0 <= k < b2.len() && b2[k] == b1[k] by {
                assert(reach(b1, i, fuel).contains(k));
            }
            assert forall|k: int| #[trigger] reach(b1, arg as int, (fuel - 1) as nat).contains(k) implies 0 <= k < b2.len() && b2[k] == b1[k] by {
                assert(reach(b1, i, fuel).contains(k));
            }
            lemma_reach_frame(b1, b2, func as int, (fuel - 1) as nat);
            lemma_reach_frame(b1, b2, arg as int, (fuel - 1) as nat);
        },
    }
}

/// The positions of a tree are as many as the nodes of its term, and at most the length of
/// the vector.
pub proof fn lemma_tree_size(b: Seq<DebruijnNode>, i: int, fuel: nat)
    requires
        is_tree(b, i, fuel),
    ensures
        node_view(b, i, fuel) is Some,
        reach(b, i, fuel).len() == node_view(b, i, fuel)->0.size(),
        node_view(b, i, fuel)->0.size() <= b.len(),
    decreases fuel,
{
    lemma_reach_basics(b, i, fuel);
    lemma_tree_fuel(b, i, fuel, fuel);
    match b[i] {
        DebruijnNode::Index(_) => {
            assert(reach(b, i, fuel) =~= Set::empty().insert(i));
        },
        DebruijnNode::Abstraction { body, .. } => {
            lemma_tree_size(b, body as int, (fuel - 1) as nat);
            lemma_reach_basics(b, body as int, (fuel - 1) as nat);
        },
        DebruijnNode::Application { func, arg } => {
            let rf = reach(b, func as int, (fuel - 1) as nat);
            let ra = reach(b, arg as int, (fuel - 1) as nat);
            lemma_tree_size(b, func as int, (fuel - 1) as nat);
            lemma_tree_size(b, arg as int, (fuel - 1) as nat);
            lemma_reach_basics(b, func as int, (fuel - 1) as nat);
            lemma_reach_basics(b, arg as int, (fuel - 1) as nat);
            vstd::set_lib::lemma_set_disjoint_lens(rf, ra);
        },
    }
    vstd::set_lib::lemma_int_range(0, b.len() as int);
    assert(reach(b, i, fuel).subset_of(vstd::set_lib::set_int_range(0, b.len() as int)));
    vstd::set_lib::lemma_len_subset(reach(b, i, fuel), vstd::set_lib::set_int_range(0, b.len() as int));
}

impl FlatRoot {
    /// The nodes reached from the root form a tree.
    pub open spec fn well_formed(&self) -> bool {
        exists|f: nat| #[trigger] is_tree(self.backing@, self.root as int, f)
    }

    /// Enough fuel to unfold a well-formed tree.
    pub open spec fn tree_fuel(&self) -> nat {
        choose|f: nat| #[trigger] is_tree(self.backing@, self.root as int, f)
    }

    /// The term that a well-formed tree holds.
    pub open spec fn term(&self) -> Debruijn {
        node_view(self.backing@, self.root as int, self.tree_fuel())->0
    }

    /// Appends a node, or a placeholder to be overwritten, and returns its position.
    fn alloc_one(&mut self, term: Option<DebruijnNode>) -> (r: usize)
        ensures
            final(self).backing@ == old(self).backing@.push(
                match term {
                    Some(t) => t,
                    None => DebruijnNode::Index(usize::MAX),
                },
            ),
            final(self).root == old(self).root,
            r == old(self).backing@.len(),
    {
        let term = match term {
            Some(t) => t,
            None => DebruijnNode::Index(usize::MAX),
        };
        let term_index = self.backing.len();
        self.backing.push(term);
        term_index
    }

    /// The node at `i`.
    fn node(&self, i: usize) -> (n: DebruijnNode)
        requires
            i < self.backing@.len(),
        ensures
            n == self.backing@[i as int],
    {
        self.backing[i]
    }

    /// Overwrites the node at `i`.
    fn set_node(&mut self, i: usize, n: DebruijnNode)
        requires
            i < old(self).backing@.len(),
        ensures
            final(self).backing@ == old(self).backing@.update(i as int, n),
            final(self).root == old(self).root,
    {
        self.backing.set(i, n);
    }
}


/// Two vectors that agree on `[lo, hi)` read the same subtree from a node whose subtree lies
/// there.
pub proof fn lemma_range_frame(b1: Seq<DebruijnNode>, b2: Seq<DebruijnNode>, i: int, lo: int, hi: int, fuel: nat)
    requires
        within(b1, i, lo, hi, fuel),
        hi <= b2.len(),
        forall|k: int| lo <= k < hi ==> #[trigger] b2[k] == b1[k],
    ensures
        within(b2, i, lo, hi, fuel),
        reach(b2, i, fuel) == reach(b1, i, fuel),
        is_tree(b2, i, fuel) == is_tree(b1, i, fuel),
        node_view(b2, i, fuel) == node_view(b1, i, fuel),
    decreases fuel,
{
    assert(b2[i] == b1[i]);
    match b1[i] {
        DebruijnNode::Index(_) => {},
        DebruijnNode::Abstraction { body, .. } => {
            lemma_range_frame(b1, b2, body as int, lo, hi, (fuel - 1) as nat);
        },
        DebruijnNode::Application { func, arg } => {
            lemma_range_frame(b1, b2, func as int, lo, hi, (fuel - 1) as nat);
            lemma_range_frame(b1, b2, arg as int, lo, hi, (fuel - 1) as nat);
        },
    }
}

/// The number of times the variable of the abstraction whose body is `body` occurs in it.
fn compute_usage(body: &Debruijn) -> (r: usize)
    requires
        body.size() < usize::MAX,
    ensures
        r == crate::debruijn_flat::occurrences(*body, 1),
{
    compute_usage_at(body, 1)
}

fn compute_usage_at(term: &Debruijn, depth: usize) -> (r: usize)
    requires
        depth + term.size() <= usize::MAX,
    ensures
        r == crate::debruijn_flat::occurrences(*term, depth as nat),
    decreases term,
{
    proof {
        crate::debruijn_flat::lemma_occurrences_size(*term, depth as nat);
    }
    match term {
        Debruijn::Index(index) => if *index == depth {
            1
        } else {
            0
        },
        Debruijn::Application { func, arg } => {
            proof {
                crate::debruijn_flat::lemma_occurrences_size(**func, depth as nat);
                crate::debruijn_flat::lemma_occurrences_size(**arg, depth as nat);
            }
            compute_usage_at(func, depth) + compute_usage_at(arg, depth)
        },
        Debruijn::Abstraction { body } => compute_usage_at(body, depth + 1),
    }
}

/// The nodes that lay `t` out from position `base` in preorder: each node before its parts,
/// an abstraction with the occurrences of its variable as usage.
pub open spec fn preorder(t: Debruijn, base: int) -> Seq<DebruijnNode>
    decreases t,
{
    match t {
        Debruijn::Index(k) => seq![DebruijnNode::Index(k)],
        Debruijn::Abstraction { body } => seq![
            DebruijnNode::Abstraction {
                body: (base + 1) as usize,
                usage: crate::debruijn_flat::occurrences(*body, 1) as usize,
            },
        ] + preorder(*body, base + 1),
        Debruijn::Application { func, arg } => seq![
            DebruijnNode::Application { func: (base + 1) as usize, arg: (base + 1 + func.size()) as usize },
        ] + preorder(*func, base + 1) + preorder(*arg, base + 1 + func.size()),
    }
}

/// A term is laid out in as many nodes as it has.
pub proof fn lemma_preorder_len(t: Debruijn, base: int)
    ensures
        preorder(t, base).len() == t.size(),
    decreases t,
{
    match t {
        Debruijn::Index(_) => {},
        Debruijn::Abstraction { body } => {
            lemma_preorder_len(*body, base + 1);
        },
        Debruijn::Application { func, arg } => {
            lemma_preorder_len(*func, base + 1);
            lemma_preorder_len(*arg, base + 1 + func.size());
        },
    }
}

/// Putting a node down, laying out its parts after it, then filling the node in, lays out the
/// whole term in preorder.
proof fn lemma_preorder_step(b0: Seq<DebruijnNode>, x: DebruijnNode, after: Seq<DebruijnNode>, b: Seq<DebruijnNode>, t: Debruijn)
    requires
        !(t is Index),
        after == b0.push(x) + match t {
            Debruijn::Abstraction { body } => preorder(*body, b0.len() + 1int),
            Debruijn::Application { func, arg } => preorder(*func, b0.len() + 1int) + preorder(
                *arg,
                b0.len() + 1int + func.size(),
            ),
            Debruijn::Index(_) => Seq::empty(),
        },
        b == after.update(b0.len() as int, preorder(t, b0.len() as int)[0]),
    ensures
        b == b0 + preorder(t, b0.len() as int),
{
    let lo = b0.len() as int;
    match t {
        Debruijn::Abstraction { body } => {
            assert(preorder(t, lo) == seq![preorder(t, lo)[0]] + preorder(*body, lo + 1));
        },
        Debruijn::Application { func, arg } => {
            assert(preorder(t, lo) == seq![preorder(t, lo)[0]] + (preorder(*func, lo + 1) + preorder(*arg, lo + 1 + func.size())));
        },
        Debruijn::Index(_) => {},
    }
    assert(b =~= b0 + preorder(t, lo));
}

/// Lays `term` out at the end of `root`, each node before its children, and returns the
/// position of its first node.
fn flatten(root: &mut FlatRoot, term: &Debruijn) -> (r: usize)
    requires
        old(root).backing@.len() + term.size() <= usize::MAX,
    ensures
        ({
            let b0 = old(root).backing@;
            let b = final(root).backing@;
            let lo = b0.len() as int;
            &&& final(root).root == old(root).root
            &&& r == lo
            &&& b.len() == b0.len() + term.size()
            &&& b.subrange(0, lo) == b0
            &&& within(b, r as int, lo, b.len() as int, term.size())
            &&& is_tree(b, r as int, term.size())
            &&& node_view(b, r as int, term.size()) == Some(*term)
            &&& usages_match(b, r as int, term.size())
            &&& b == b0 + preorder(*term, lo)
        }),
    decreases term,
{
    let ghost b0 = root.backing@;
    let ghost lo = b0.len() as int;
    match term {
        Debruijn::Index(index) => {
            let r = root.alloc_one(Some(DebruijnNode::Index(*index)));
            proof {
                assert(root.backing@.subrange(0, lo) =~= b0);
                assert(root.backing@ =~= b0 + preorder(*term, lo));
            }
            r
        },
        Debruijn::Abstraction { body } => {
            let usage = compute_usage(body);
            let abs = root.alloc_one(None);
            let body_index = flatten(root, body);
            let ghost b2 = root.backing@;
            root.set_node(abs, DebruijnNode::Abstraction { body: body_index, usage });
            proof {
                let b3 = root.backing@;
                let hi = b3.len() as int;
                let f = body.size();
                assert forall|k: int| lo + 1 <= k < hi implies #[trigger] b3[k] == b2[k] by {}
                lemma_range_frame(b2, b3, body_index as int, lo + 1, hi, f);
                lemma_usages_frame(b2, b3, body_index as int, lo + 1, hi, f);
                lemma_within_reach(b3, body_index as int, lo + 1, hi, f);
                lemma_within_widen(b3, body_index as int, lo + 1, hi, f, lo, hi, f);
                assert(b3.subrange(0, lo) =~= b0) by {
                    assert forall|k: int| 0 <= k < lo implies b3[k] == b0[k] by {
                        assert(b2.subrange(0, lo + 1)[k] == b2[k]);
                    }
                }
                lemma_preorder_len(**body, lo + 1);
                lemma_preorder_step(b0, DebruijnNode::Index(usize::MAX), b2, b3, *term);
            }
            abs
        },
        Debruijn::Application { func, arg } => {
            let app = root.alloc_one(None);
            let func_index = flatten(root, func);
            let ghost b2 = root.backing@;
            let ghost mid = b2.len() as int;
            let arg_index = flatten(root, arg);
            let ghost b3 = root.backing@;
            root.set_node(app, DebruijnNode::Application { func: func_index, arg: arg_index });
            proof {
                let b4 = root.backing@;
                let hi = b4.len() as int;
                let ff = func.size();
                let fa = arg.size();
                let f = (term.size() - 1) as nat;
                assert forall|k: int| lo + 1 <= k < mid implies #[trigger] b3[k] == b2[k] by {
                    assert(b3.subrange(0, mid)[k] == b2[k]);
                }
                lemma_range_frame(b2, b3, func_index as int, lo + 1, mid, ff);
                assert forall|k: int| lo + 1 <= k < mid implies #[trigger] b4[k] == b3[k] by {}
                lemma_range_frame(b3, b4, func_index as int, lo + 1, mid, ff);
                assert forall|k: int| mid <= k < hi implies #[trigger] b4[k] == b3[k] by {}
                lemma_range_frame(b3, b4, arg_index as int, mid, hi, fa);
                lemma_usages_frame(b2, b3, func_index as int, lo + 1, mid, ff);
                lemma_usages_frame(b3, b4, func_index as int, lo + 1, mid, ff);
                lemma_usages_frame(b3, b4, arg_index as int, mid, hi, fa);
                lemma_usages_fuel(b4, func_index as int, ff, f);
                lemma_usages_fuel(b4, arg_index as int, fa, f);
                lemma_within_reach(b4, func_index as int, lo + 1, mid, ff);
                lemma_within_reach(b4, arg_index as int, mid, hi, fa);
                lemma_tree_fuel(b4, func_index as int, ff, f);
                lemma_tree_fuel(b4, arg_index as int, fa, f);
                lemma_within_widen(b4, func_index as int, lo + 1, mid, ff, lo, hi, f);
                lemma_within_widen(b4, arg_index as int, mid, hi, fa, lo, hi, f);
                assert(reach(b4, func_index as int, f).disjoint(reach(b4, arg_index as int, f)));
                assert(b4.subrange(0, lo) =~= b0) by {
                    assert forall|k: int| 0 <= k < lo implies b4[k] == b0[k] by {
                        assert(b2.subrange(0, lo + 1)[k] == b2[k]);
                        assert(b3.subrange(0, mid)[k] == b2[k]);
                    }
                }
                lemma_preorder_len(**func, lo + 1);
                let ph = DebruijnNode::Index(usize::MAX);
                assert(b3 =~= b0.push(ph) + (preorder(**func, lo + 1) + preorder(**arg, lo + 1 + func.size())));
                lemma_preorder_step(b0, ph, b3, b4, *term);
            }
            app
        },
    }
}

impl FlatRoot {
    /// The flat layout of `term`, each node before its children, the root first.
    pub fn from_debruijn(term: &Debruijn) -> (r: FlatRoot)
        requires
            term.size() <= usize::MAX,
        ensures
            r.well_formed(),
            r.term() == *term,
            r.root == 0,
            r.backing@.len() == term.size(),
            usages_match(r.backing@, r.root as int, term.size()),
            usages_match(r.backing@, r.root as int, r.tree_fuel()),
            r.backing@ == preorder(*term, 0),
    {
        let mut root = FlatRoot { backing: Vec::new(), root: 0 };
        flatten(&mut root, term);
        proof {
            assert(root.backing@ =~= preorder(*term, 0));
            let b = root.backing@;
            assert(is_tree(b, 0, term.size()));
            let g = root.tree_fuel();
            if g <= term.size() {
                lemma_tree_fuel(b, 0, g, term.size());
                lemma_usages_fuel(b, 0, g, term.size());
            } else {
                lemma_tree_fuel(b, 0, term.size(), g);
                lemma_usages_fuel(b, 0, term.size(), g);
            }
        }
        root
    }

    /// The term that the tree holds.
    pub fn to_debruijn(&self) -> (r: Debruijn)
        requires
            self.well_formed(),
        ensures
            r == self.term(),
    {
        proof {
            lemma_tree_fuel(self.backing@, self.root as int, self.tree_fuel(), self.tree_fuel());
        }
        unflatten_at(self, self.root, Ghost(self.tree_fuel()))
    }
}

fn unflatten_at(root: &FlatRoot, term: usize, Ghost(fuel): Ghost<nat>) -> (r: Debruijn)
    requires
        node_view(root.backing@, term as int, fuel) is Some,
    ensures
        r == node_view(root.backing@, term as int, fuel)->0,
    decreases fuel,
{
    match root.node(term) {
        DebruijnNode::Index(index) => Debruijn::Index(index),
        DebruijnNode::Abstraction { body, .. } => Debruijn::Abstraction {
            body: Box::new(unflatten_at(root, body, Ghost((fuel - 1) as nat))),
        },
        DebruijnNode::Application { func, arg } => Debruijn::Application {
            func: Box::new(unflatten_at(root, func, Ghost((fuel - 1) as nat))),
            arg: Box::new(unflatten_at(root, arg, Ghost((fuel - 1) as nat))),
        },
    }
}

/// An application of an abstraction, found in a `FlatRoot`.
#[derive(Debug)]
pub struct RedexMut {
    /// The edge that leads to the application; `None` when it is the root.
    pub parent: Option<Parent>,
    /// The abstraction applied.
    pub abs: usize,
    /// The body of the abstraction.
    pub body: usize,
    /// The argument.
    pub arg: usize,
    /// The usage recorded in the abstraction.
    pub usage: usize,
}

/// The redex at `app`, reached by `parent`, as `try_get` finds it.
pub open spec fn redex_spec(b: Seq<DebruijnNode>, parent: Option<Parent>, app: int) -> Option<RedexMut> {
    if 0 <= app < b.len() && (b[app] matches DebruijnNode::Application { func, arg } && 0 <= func < b.len()
        && b[func as int] is Abstraction) {
        let func = b[app]->Application_func;
        Some(RedexMut {
            parent,
            abs: func,
            body: b[func as int]->Abstraction_body,
            arg: b[app]->Application_arg,
            usage: b[func as int]->Abstraction_usage,
        })
    } else {
        None
    }
}

impl RedexMut {
    /// The redex at `app`, reached by `parent`, or `None` when the node is not an application
    /// of an abstraction.
    pub fn try_get(terms: &FlatRoot, parent: Option<Parent>, app: usize) -> (r: Option<RedexMut>)
        requires
            app < terms.backing@.len(),
            terms.backing@[app as int] matches DebruijnNode::Application { func, .. } ==> func < terms.backing@.len(),
        ensures
            r == redex_spec(terms.backing@, parent, app as int),
    {
        match terms.node(app) {
            DebruijnNode::Application { func, arg } => match terms.node(func) {
                DebruijnNode::Abstraction { body, usage } => Some(RedexMut { parent, abs: func, body, arg, usage }),
                _ => None,
            },
            _ => None,
        }
    }
}


/// Two nodes of the same shape: both variables, or equal.
pub open spec fn same_shape(n1: DebruijnNode, n2: DebruijnNode) -> bool {
    (n1 is Index && n2 is Index) || n1 == n2
}

/// A vector that keeps the shape of the nodes a tree reaches keeps the tree and its positions.
pub proof fn lemma_shape_frame(b1: Seq<DebruijnNode>, b2: Seq<DebruijnNode>, i: int, fuel: nat)
    requires
        is_tree(b1, i, fuel),
        b1.len() <= b2.len(),
        forall|k: int| #[trigger] reach(b1, i, fuel).contains(k) ==> same_shape(b1[k], b2[k]),
    ensures
        is_tree(b2, i, fuel),
        reach(b2, i, fuel) == reach(b1, i, fuel),
        within(b2, i, 0, b2.len() as int, fuel),
    decreases fuel,
{
    lemma_reach_basics(b1, i, fuel);
    assert(same_shape(b1[i], b2[i]));
    match b1[i] {
        DebruijnNode::Index(_) => {},
        DebruijnNode::Abstraction { body, .. } => {
            assert forall|k: int| #[trigger] reach(b1, body as int, (fuel - 1) as nat).contains(k) implies same_shape(b1[k], b2[k]) by {
                assert(reach(b1, i, fuel).contains(k));
            }
            lemma_shape_frame(b1, b2, body as int, (fuel - 1) as nat);
        },
        DebruijnNode::Application { func, arg } => {
            assert forall|k: int| #[trigger] reach(b1, func as int, (fuel - 1) as nat).contains(k) implies same_shape(b1[k], b2[k]) by {
                assert(reach(b1, i, fuel).contains(k));
            }
            assert forall|k: int| #[trigger] reach(b1, arg as int, (fuel - 1) as nat).contains(k) implies same_shape(b1[k], b2[k]) by {
                assert(reach(b1, i, fuel).contains(k));
            }
            lemma_shape_frame(b1, b2, func as int, (fuel - 1) as nat);
            lemma_shape_frame(b1, b2, arg as int, (fuel - 1) as nat);
        },
    }
}

/// Moves by `up_by` every index of the subtree at `term` at or above `cutoff` (which rises by
/// one under each abstraction), in place.
fn shift_cutoff_mut(root: &mut FlatRoot, term: usize, up_by: isize, cutoff: usize, Ghost(fuel): Ghost<nat>)
    requires
        is_tree(old(root).backing@, term as int, fuel),
        can_shift(node_view(old(root).backing@, term as int, fuel)->0, up_by as int, cutoff as nat),
    ensures
        ({
            let b0 = old(root).backing@;
            let b = final(root).backing@;
            let i = term as int;
            &&& final(root).root == old(root).root
            &&& b.len() == b0.len()
            &&& forall|k: int| 0 <= k < b.len() && !reach(b0, i, fuel).contains(k) ==> #[trigger] b[k] == b0[k]
            &&& forall|k: int| #[trigger] reach(b0, i, fuel).contains(k) ==> same_shape(b0[k], b[k])
            &&& is_tree(b, i, fuel)
            &&& reach(b, i, fuel) == reach(b0, i, fuel)
            &&& node_view(b, i, fuel) == Some(shift_spec(node_view(b0, i, fuel)->0, up_by as int, cutoff as nat))
        }),
    decreases fuel,
{
    let ghost b0 = root.backing@;
    let ghost i = term as int;
    proof {
        lemma_reach_basics(b0, i, fuel);
        lemma_tree_fuel(b0, i, fuel, fuel);
    }
    match root.node(term) {
        DebruijnNode::Index(term_index) => {
            if term_index >= cutoff {
                let new_index = term_index.checked_add_signed(up_by).unwrap();
                root.set_node(term, DebruijnNode::Index(new_index));
            }
            proof {
                assert(reach(b0, i, fuel) =~= Set::empty().insert(i));
            }
        },
        DebruijnNode::Application { func, arg } => {
            let ghost f = (fuel - 1) as nat;
            proof {
                lemma_reach_basics(b0, func as int, f);
                lemma_reach_basics(b0, arg as int, f);
                lemma_tree_fuel(b0, func as int, f, f);
                lemma_tree_fuel(b0, arg as int, f, f);
            }
            shift_cutoff_mut(root, func, up_by, cutoff, Ghost(f));
            let ghost b1 = root.backing@;
            proof {
                assert forall|k: int| #[trigger] reach(b0, arg as int, f).contains(k) implies 0 <= k < b1.len() && b1[k] == b0[k] by {}
                lemma_reach_frame(b0, b1, arg as int, f);
            }
            shift_cutoff_mut(root, arg, up_by, cutoff, Ghost(f));
            proof {
                let b2 = root.backing@;
                lemma_tree_fuel(b1, func as int, f, f);
                assert forall|k: int| #[trigger] reach(b1, func as int, f).contains(k) implies 0 <= k < b2.len() && b2[k] == b1[k] by {}
                lemma_reach_frame(b1, b2, func as int, f);
                assert forall|k: int| #[trigger] reach(b0, i, fuel).contains(k) implies same_shape(b0[k], b2[k]) by {
                    if reach(b0, func as int, f).contains(k) {
                        assert(same_shape(b0[k], b1[k]));
                        assert(b2[k] == b1[k]);
                    } else if reach(b0, arg as int, f).contains(k) {
                        assert(same_shape(b1[k], b2[k]));
                        assert(b1[k] == b0[k]);
                    }
                }
                assert(b2[i] == b0[i]);
            }
        },
        DebruijnNode::Abstraction { body, .. } => {
            proof {
                lemma_reach_basics(b0, body as int, (fuel - 1) as nat);
            }
            shift_cutoff_mut(root, body, up_by, cutoff + 1, Ghost((fuel - 1) as nat));
            proof {
                let b1 = root.backing@;
                assert(b1[i] == b0[i]);
                assert forall|k: int| #[trigger] reach(b0, i, fuel).contains(k) implies same_shape(b0[k], b1[k]) by {
                    if k != i {
                        assert(reach(b0, body as int, (fuel - 1) as nat).contains(k));
                    }
                }
            }
        },
    }
}

/// Raises by `up_by` every free index of the subtree at `term`.
fn up_by_mut(root: &mut FlatRoot, term: usize, up_by: usize, Ghost(fuel): Ghost<nat>)
    requires
        is_tree(old(root).backing@, term as int, fuel),
        up_by <= isize::MAX,
        can_shift(node_view(old(root).backing@, term as int, fuel)->0, up_by as int, 1),
    ensures
        ({
            let b0 = old(root).backing@;
            let b = final(root).backing@;
            let i = term as int;
            &&& final(root).root == old(root).root
            &&& b.len() == b0.len()
            &&& forall|k: int| 0 <= k < b.len() && !reach(b0, i, fuel).contains(k) ==> #[trigger] b[k] == b0[k]
            &&& forall|k: int| #[trigger] reach(b0, i, fuel).contains(k) ==> same_shape(b0[k], b[k])
            &&& is_tree(b, i, fuel)
            &&& reach(b, i, fuel) == reach(b0, i, fuel)
            &&& node_view(b, i, fuel) == Some(shift_spec(node_view(b0, i, fuel)->0, up_by as int, 1))
        }),
{
    shift_cutoff_mut(root, term, up_by as isize, 1, Ghost(fuel))
}

/// Raises by one every free index of the subtree at `term`.
fn up_one_mut(root: &mut FlatRoot, term: usize, Ghost(fuel): Ghost<nat>)
    requires
        is_tree(old(root).backing@, term as int, fuel),
        can_shift(node_view(old(root).backing@, term as int, fuel)->0, 1, 1),
    ensures
        ({
            let b0 = old(root).backing@;
            let b = final(root).backing@;
            let i = term as int;
            &&& final(root).root == old(root).root
            &&& b.len() == b0.len()
            &&& forall|k: int| 0 <= k < b.len() && !reach(b0, i, fuel).contains(k) ==> #[trigger] b[k] == b0[k]
            &&& forall|k: int| #[trigger] reach(b0, i, fuel).contains(k) ==> same_shape(b0[k], b[k])
            &&& is_tree(b, i, fuel)
            &&& reach(b, i, fuel) == reach(b0, i, fuel)
            &&& node_view(b, i, fuel) == Some(shift_spec(node_view(b0, i, fuel)->0, 1, 1))
        }),
{
    shift_cutoff_mut(root, term, 1, 1, Ghost(fuel))
}

/// Lowers by one every free index of the subtree at `term`.
fn down_one_mut(root: &mut FlatRoot, term: usize, Ghost(fuel): Ghost<nat>)
    requires
        is_tree(old(root).backing@, term as int, fuel),
        can_shift(node_view(old(root).backing@, term as int, fuel)->0, -1, 1),
    ensures
        ({
            let b0 = old(root).backing@;
            let b = final(root).backing@;
            let i = term as int;
            &&& final(root).root == old(root).root
            &&& b.len() == b0.len()
            &&& forall|k: int| 0 <= k < b.len() && !reach(b0, i, fuel).contains(k) ==> #[trigger] b[k] == b0[k]
            &&& forall|k: int| #[trigger] reach(b0, i, fuel).contains(k) ==> same_shape(b0[k], b[k])
            &&& is_tree(b, i, fuel)
            &&& reach(b, i, fuel) == reach(b0, i, fuel)
            &&& node_view(b, i, fuel) == Some(shift_spec(node_view(b0, i, fuel)->0, -1, 1))
        }),
{
    shift_cutoff_mut(root, term, -1, 1, Ghost(fuel))
}


impl FlatRoot {
    /// Appends a copy of the subtree at `term`, each node before its children, and returns
    /// the position of its first node.
    fn clone_subtree(&mut self, term: usize, Ghost(fuel): Ghost<nat>) -> (r: usize)
        requires
            is_tree(old(self).backing@, term as int, fuel),
            old(self).backing@.len() + node_view(old(self).backing@, term as int, fuel)->0.size() <= usize::MAX,
        ensures
            ({
                let b0 = old(self).backing@;
                let b = final(self).backing@;
                let lo = b0.len() as int;
                &&& final(self).root == old(self).root
                &&& r == lo
                &&& b.len() == b0.len() + node_view(b0, term as int, fuel)->0.size()
                &&& b.subrange(0, lo) == b0
                &&& within(b, r as int, lo, b.len() as int, fuel)
                &&& is_tree(b, r as int, fuel)
                &&& node_view(b, r as int, fuel) == node_view(b0, term as int, fuel)
            }),
        decreases fuel,
    {
        let ghost b0 = self.backing@;
        let ghost lo = b0.len() as int;
        let ghost i = term as int;
        proof {
            lemma_tree_fuel(b0, i, fuel, fuel);
            lemma_reach_basics(b0, i, fuel);
        }
        match self.node(term) {
            DebruijnNode::Index(index) => {
                let r = self.alloc_one(Some(DebruijnNode::Index(index)));
                proof {
                    assert(self.backing@.subrange(0, lo) =~= b0);
                }
                r
            },
            DebruijnNode::Abstraction { body, usage } => {
                let ghost f = (fuel - 1) as nat;
                let abs = self.alloc_one(None);
                let ghost b1 = self.backing@;
                proof {
                    lemma_tree_fuel(b0, body as int, f, f);
                    lemma_within_widen(b0, body as int, 0, b0.len() as int, f, 0, lo, f);
                    assert forall|k: int| 0 <= k < lo implies #[trigger] b1[k] == b0[k] by {}
                    lemma_range_frame(b0, b1, body as int, 0, lo, f);
                }
                let body = self.clone_subtree(body, Ghost(f));
                let ghost b2 = self.backing@;
                self.set_node(abs, DebruijnNode::Abstraction { body, usage });
                proof {
                    let b3 = self.backing@;
                    let hi = b3.len() as int;
                    assert forall|k: int| lo + 1 <= k < hi implies #[trigger] b3[k] == b2[k] by {}
                    lemma_range_frame(b2, b3, body as int, lo + 1, hi, f);
                    lemma_within_reach(b3, body as int, lo + 1, hi, f);
                    lemma_within_widen(b3, body as int, lo + 1, hi, f, lo, hi, f);
                    assert(b3.subrange(0, lo) =~= b0) by {
                        assert forall|k: int| 0 <= k < lo implies b3[k] == b0[k] by {
                            assert(b2.subrange(0, lo + 1)[k] == b1[k]);
                        }
                    }
                }
                abs
            },
            DebruijnNode::Application { func, arg } => {
                let ghost f = (fuel - 1) as nat;
                let app = self.alloc_one(None);
                let ghost b1 = self.backing@;
                proof {
                    lemma_tree_fuel(b0, func as int, f, f);
                    lemma_tree_fuel(b0, arg as int, f, f);
                    lemma_within_widen(b0, func as int, 0, b0.len() as int, f, 0, lo, f);
                    lemma_within_widen(b0, arg as int, 0, b0.len() as int, f, 0, lo, f);
                    assert forall|k: int| 0 <= k < lo implies #[trigger] b1[k] == b0[k] by {}
                    lemma_range_frame(b0, b1, func as int, 0, lo, f);
                    lemma_range_frame(b0, b1, arg as int, 0, lo, f);
                }
                let new_func = self.clone_subtree(func, Ghost(f));
                let ghost b2 = self.backing@;
                let ghost mid = b2.len() as int;
                proof {
                    assert forall|k: int| 0 <= k < lo implies #[trigger] b2[k] == b1[k] by {
                        assert(b2.subrange(0, lo + 1)[k] == b1[k]);
                    }
                    lemma_range_frame(b1, b2, arg as int, 0, lo, f);
                }
                let new_arg = self.clone_subtree(arg, Ghost(f));
                let ghost b3 = self.backing@;
                self.set_node(app, DebruijnNode::Application { func: new_func, arg: new_arg });
                proof {
                    let b4 = self.backing@;
                    let hi = b4.len() as int;
                    assert forall|k: int| lo + 1 <= k < mid implies #[trigger] b3[k] == b2[k] by {
                        assert(b3.subrange(0, mid)[k] == b2[k]);
                    }
                    lemma_range_frame(b2, b3, new_func as int, lo + 1, mid, f);
                    assert forall|k: int| lo + 1 <= k < hi implies #[trigger] b4[k] == b3[k] by {}
                    lemma_range_frame(b3, b4, new_func as int, lo + 1, mid, f);
                    lemma_range_frame(b3, b4, new_arg as int, mid, hi, f);
                    lemma_within_reach(b4, new_func as int, lo + 1, mid, f);
                    lemma_within_reach(b4, new_arg as int, mid, hi, f);
                    lemma_within_widen(b4, new_func as int, lo + 1, mid, f, lo, hi, f);
                    lemma_within_widen(b4, new_arg as int, mid, hi, f, lo, hi, f);
                    assert(reach(b4, new_func as int, f).disjoint(reach(b4, new_arg as int, f)));
                    assert(b4.subrange(0, lo) =~= b0) by {
                        assert forall|k: int| 0 <= k < lo implies b4[k] == b0[k] by {
                            assert(b2.subrange(0, lo + 1)[k] == b1[k]);
                            assert(b3.subrange(0, mid)[k] == b2[k]);
                        }
                    }
                }
                app
            },
        }
    }
}

/// The number of times the variable of the abstraction whose body is at `body` occurs in it.
fn compute_usage_flat(root: &FlatRoot, body: usize, Ghost(fuel): Ghost<nat>) -> (r: usize)
    requires
        is_tree(root.backing@, body as int, fuel),
        root.backing@.len() < usize::MAX,
    ensures
        r == crate::debruijn_flat::occurrences(node_view(root.backing@, body as int, fuel)->0, 1),
{
    proof {
        lemma_tree_size(root.backing@, body as int, fuel);
    }
    compute_usage_flat_at(root, body, 1, Ghost(fuel))
}

fn compute_usage_flat_at(root: &FlatRoot, term_i: usize, depth: usize, Ghost(fuel): Ghost<nat>) -> (r: usize)
    requires
        node_view(root.backing@, term_i as int, fuel) is Some,
        depth + node_view(root.backing@, term_i as int, fuel)->0.size() <= usize::MAX,
    ensures
        r == crate::debruijn_flat::occurrences(node_view(root.backing@, term_i as int, fuel)->0, depth as nat),
    decreases fuel,
{
    proof {
        crate::debruijn_flat::lemma_occurrences_size(node_view(root.backing@, term_i as int, fuel)->0, depth as nat);
    }
    match root.node(term_i) {
        DebruijnNode::Index(index) => if index == depth {
            1
        } else {
            0
        },
        DebruijnNode::Application { func, arg } => {
            proof {
                let b = root.backing@;
                crate::debruijn_flat::lemma_occurrences_size(node_view(b, func as int, (fuel - 1) as nat)->0, depth as nat);
                crate::debruijn_flat::lemma_occurrences_size(node_view(b, arg as int, (fuel - 1) as nat)->0, depth as nat);
            }
            compute_usage_flat_at(root, func, depth, Ghost((fuel - 1) as nat)) + compute_usage_flat_at(
                root,
                arg,
                depth,
                Ghost((fuel - 1) as nat),
            )
        },
        DebruijnNode::Abstraction { body, .. } => compute_usage_flat_at(root, body, depth + 1, Ghost((fuel - 1) as nat)),
    }
}

/// The node that the edge `parent` leads to in `b` (the root when `parent` is `None`).
pub open spec fn edge_child(b: Seq<DebruijnNode>, root: usize, parent: Option<Parent>) -> Option<usize> {
    match parent {
        None => Some(root),
        Some(Parent::Body(p)) => if 0 <= p < b.len() && b[p as int] is Abstraction {
            Some(b[p as int]->Abstraction_body)
        } else {
            None
        },
        Some(Parent::Func(p)) => if 0 <= p < b.len() && b[p as int] is Application {
            Some(b[p as int]->Application_func)
        } else {
            None
        },
        Some(Parent::Arg(p)) => if 0 <= p < b.len() && b[p as int] is Application {
            Some(b[p as int]->Application_arg)
        } else {
            None
        },
    }
}

/// The node that the edge `parent` comes from.
pub open spec fn parent_node(parent: Option<Parent>) -> Option<usize> {
    match parent {
        None => None,
        Some(Parent::Body(p)) => Some(p),
        Some(Parent::Func(p)) => Some(p),
        Some(Parent::Arg(p)) => Some(p),
    }
}

/// Makes the edge `parent` lead to `child`; an abstraction gets the usage of its new body.
fn repoint_node(root: &mut FlatRoot, parent: Option<Parent>, child: usize, Ghost(fuel): Ghost<nat>)
    requires
        edge_child(old(root).backing@, old(root).root, parent) is Some,
        parent matches Some(Parent::Body(_)) ==> is_tree(old(root).backing@, child as int, fuel)
            && old(root).backing@.len() < usize::MAX,
    ensures
        ({
            let b0 = old(root).backing@;
            let b = final(root).backing@;
            &&& b.len() == b0.len()
            &&& final(root).root == if parent is None {
                child
            } else {
                old(root).root
            }
            &&& edge_child(b, final(root).root, parent) == Some(child)
            &&& forall|k: int| 0 <= k < b.len() && Some(k as usize) != parent_node(parent) ==> #[trigger] b[k] == b0[k]
            &&& parent_node(parent) matches Some(p) ==> (b0[p as int] is Abstraction <==> b[p as int] is Abstraction)
            &&& parent matches Some(Parent::Func(p)) ==> b[p as int]->Application_arg == b0[p as int]->Application_arg
            &&& parent matches Some(Parent::Arg(p)) ==> b[p as int]->Application_func == b0[p as int]->Application_func
            &&& parent matches Some(Parent::Body(p)) ==> b[p as int]->Abstraction_usage == crate::debruijn_flat::occurrences(
                node_view(b0, child as int, fuel)->0,
                1,
            )
        }),
{
    match parent {
        Some(Parent::Body(parent)) => {
            let usage = compute_usage_flat(root, child, Ghost(fuel));
            root.set_node(parent, DebruijnNode::Abstraction { body: child, usage });
        },
        Some(Parent::Func(parent)) => {
            let arg = match root.node(parent) {
                DebruijnNode::Application { arg, .. } => arg,
                _ => vstd::pervasive::unreached(),
            };
            root.set_node(parent, DebruijnNode::Application { func: child, arg });
        },
        Some(Parent::Arg(parent)) => {
            let func = match root.node(parent) {
                DebruijnNode::Application { func, .. } => func,
                _ => vstd::pervasive::unreached(),
            };
            root.set_node(parent, DebruijnNode::Application { func, arg: child });
        },
        None => {
            root.root = child;
        },
    }
}


/// What the substitution walk makes of `t`: each index equal to `m` (one more under each
/// abstraction) replaced by `va` with its free indices raised by `d` (the abstractions
/// entered so far).
pub open spec fn subst_at(t: Debruijn, va: Debruijn, m: nat, d: nat) -> Debruijn
    decreases t,
{
    match t {
        Debruijn::Index(k) => if k == m {
            shift_spec(va, d as int, 1)
        } else {
            t
        },
        Debruijn::Application { func, arg } => Debruijn::Application {
            func: Box::new(subst_at(*func, va, m, d)),
            arg: Box::new(subst_at(*arg, va, m, d)),
        },
        Debruijn::Abstraction { body } => Debruijn::Abstraction { body: Box::new(subst_at(*body, va, m + 1, d + 1)) },
    }
}

/// The substitution walk over `t` stays within `usize`: every copy can be raised by its depth,
/// and the depths can be counted.
pub open spec fn subst_ok(t: Debruijn, va: Debruijn, m: nat, d: nat) -> bool
    decreases t,
{
    match t {
        Debruijn::Index(k) => k == m ==> can_shift(va, d as int, 1) && d <= isize::MAX,
        Debruijn::Application { func, arg } => subst_ok(*func, va, m, d) && subst_ok(*arg, va, m, d),
        Debruijn::Abstraction { body } => m < usize::MAX && d < usize::MAX && subst_ok(*body, va, m + 1, d + 1),
    }
}

/// Replaces, in the subtree at `term`, each index equal to `match_index` by a copy of the
/// subtree at `redex_arg` raised by `depth`, leading `parent` to what takes its place.
#[verifier::rlimit(100)]
#[verifier::spinoff_prover]
fn substitute_at(
    root: &mut FlatRoot,
    parent: Parent,
    term: usize,
    redex_arg: usize,
    match_index: usize,
    depth: usize,
    Ghost(fuel): Ghost<nat>,
    Ghost(fa): Ghost<nat>,
)
    requires
        ({
            let b = old(root).backing@;
            let i = term as int;
            let a = redex_arg as int;
            let pp = parent_node(Some(parent))->0 as int;
            let t = node_view(b, i, fuel)->0;
            let va = node_view(b, a, fa)->0;
            &&& is_tree(b, i, fuel)
            &&& is_tree(b, a, fa)
            &&& edge_child(b, old(root).root, Some(parent)) == Some(term)
            &&& 0 <= pp < b.len()
            &&& !reach(b, i, fuel).contains(pp)
            &&& !reach(b, a, fa).contains(pp)
            &&& reach(b, i, fuel).disjoint(reach(b, a, fa))
            &&& subst_ok(t, va, match_index as nat, depth as nat)
            &&& b.len() + crate::debruijn_flat::occurrences(t, match_index as nat) * va.size() < usize::MAX
        }),
    ensures
        ({
            let b0 = old(root).backing@;
            let b = final(root).backing@;
            let i = term as int;
            let a = redex_arg as int;
            let pp = parent_node(Some(parent))->0 as int;
            let t = node_view(b0, i, fuel)->0;
            let va = node_view(b0, a, fa)->0;
            let r = edge_child(b, final(root).root, Some(parent));
            &&& final(root).root == old(root).root
            &&& b.len() == b0.len() + crate::debruijn_flat::occurrences(t, match_index as nat) * va.size()
            &&& r is Some
            &&& forall|k: int| 0 <= k < b0.len() && !reach(b0, i, fuel).contains(k) && k != pp ==> #[trigger] b[k] == b0[k]
            &&& (b0[pp] is Abstraction <==> b[pp] is Abstraction)
            &&& parent matches Parent::Func(p) ==> b[p as int]->Application_arg == b0[p as int]->Application_arg
            &&& parent matches Parent::Arg(p) ==> b[p as int]->Application_func == b0[p as int]->Application_func
            &&& is_tree(b, r->0 as int, fuel + fa)
            &&& node_view(b, r->0 as int, fuel + fa) == Some(subst_at(t, va, match_index as nat, depth as nat))
            &&& forall|k: int| #[trigger] reach(b, r->0 as int, fuel + fa).contains(k) ==> reach(b0, i, fuel).contains(k)
                || b0.len() <= k < b.len()
        }),
    decreases fuel,
{
    let ghost b0 = root.backing@;
    let ghost i = term as int;
    let ghost a = redex_arg as int;
    let ghost pp = parent_node(Some(parent))->0 as int;
    let ghost t = node_view(b0, i, fuel)->0;
    let ghost va = node_view(b0, a, fa)->0;
    let ghost len0 = b0.len() as int;
    proof {
        lemma_reach_basics(b0, i, fuel);
        lemma_reach_basics(b0, a, fa);
        lemma_tree_fuel(b0, i, fuel, fuel);
        lemma_tree_fuel(b0, a, fa, fa);
        lemma_tree_size(b0, a, fa);
    }
    match root.node(term) {
        DebruijnNode::Index(term_index) => {
            if term_index == match_index {
                proof {
                    assert(t == Debruijn::Index(term_index));
                    assert(crate::debruijn_flat::occurrences(t, match_index as nat) == 1);
                }
                let last_arg_allocation = false;
                let new_arg = if !last_arg_allocation {
                    root.clone_subtree(redex_arg, Ghost(fa))
                } else {
                    redex_arg
                };
                let ghost b1 = root.backing@;
                proof {
                    assert(new_arg as int == len0);
                    lemma_within_reach(b1, new_arg as int, len0, b1.len() as int, fa);
                }
                up_by_mut(root, new_arg, depth, Ghost(fa));
                let ghost b2 = root.backing@;
                proof {
                    assert(b2[pp] == b0[pp]) by {
                        assert(b1.subrange(0, len0)[pp] == b0[pp]);
                    }
                }
                repoint_node(root, Some(parent), new_arg, Ghost(fa));
                proof {
                    let b3 = root.backing@;
                    lemma_tree_fuel(b2, new_arg as int, fa, fa);
                    assert forall|k: int| #[trigger] reach(b2, new_arg as int, fa).contains(k) implies 0 <= k < b3.len() && b3[k] == b2[k] by {}
                    lemma_reach_frame(b2, b3, new_arg as int, fa);
                    lemma_tree_fuel(b3, new_arg as int, fa, fuel + fa);
                    assert forall|k: int| 0 <= k < b0.len() && !reach(b0, i, fuel).contains(k) && k != pp implies #[trigger] b3[k] == b0[k] by {
                        assert(b1.subrange(0, len0)[k] == b0[k]);
                    }
                }
            }
        },
        DebruijnNode::Abstraction { body, .. } => {
            let ghost f = (fuel - 1) as nat;
            proof {
                lemma_reach_basics(b0, body as int, f);
                assert(crate::debruijn_flat::occurrences(t, match_index as nat) == crate::debruijn_flat::occurrences(
                    node_view(b0, body as int, f)->0,
                    match_index as nat + 1,
                ));
            }
            substitute_at(root, Parent::Body(term), body, redex_arg, match_index + 1, depth + 1, Ghost(f), Ghost(fa));
            proof {
                let b1 = root.backing@;
                let rb = edge_child(b1, root.root, Some(Parent::Body(term)))->0;
                assert(b1[pp] == b0[pp]);
                assert(!reach(b1, rb as int, f + fa).contains(i));
                assert((f + fa) as nat == (fuel + fa - 1) as nat);
            }
        },
        DebruijnNode::Application { func, arg } => {
            let ghost f = (fuel - 1) as nat;
            let ghost tf = node_view(b0, func as int, f)->0;
            let ghost ta = node_view(b0, arg as int, f)->0;
            let ghost m = match_index as nat;
            proof {
                lemma_reach_basics(b0, func as int, f);
                lemma_reach_basics(b0, arg as int, f);
                lemma_tree_fuel(b0, func as int, f, f);
                lemma_tree_fuel(b0, arg as int, f, f);
                let of = crate::debruijn_flat::occurrences(tf, m);
                let oa = crate::debruijn_flat::occurrences(ta, m);
                assert(of * va.size() + oa * va.size() == (of + oa) * va.size()) by (nonlinear_arith);
                assert(oa * va.size() >= 0) by (nonlinear_arith);
            }
            substitute_at(root, Parent::Func(term), func, redex_arg, match_index, depth, Ghost(f), Ghost(fa));
            let ghost b1 = root.backing@;
            let ghost len1 = b1.len() as int;
            let ghost rf = edge_child(b1, root.root, Some(Parent::Func(term)))->0;
            proof {
                assert forall|k: int| #[trigger] reach(b0, arg as int, f).contains(k) implies 0 <= k < b1.len() && b1[k] == b0[k] by {}
                lemma_reach_frame(b0, b1, arg as int, f);
                assert forall|k: int| #[trigger] reach(b0, a, fa).contains(k) implies 0 <= k < b1.len() && b1[k] == b0[k] by {}
                lemma_reach_frame(b0, b1, a, fa);
                assert(b1[i] is Application);
            }
            substitute_at(root, Parent::Arg(term), arg, redex_arg, match_index, depth, Ghost(f), Ghost(fa));
            proof {
                let b2 = root.backing@;
                let ra = edge_child(b2, root.root, Some(Parent::Arg(term)))->0;
                let ff = (f + fa) as nat;
                lemma_tree_fuel(b1, rf as int, ff, ff);
                lemma_reach_basics(b1, rf as int, ff);
                assert forall|k: int| #[trigger] reach(b1, rf as int, ff).contains(k) implies 0 <= k < b2.len() && b2[k] == b1[k] by {
                    if k < len0 {
                        assert(reach(b0, func as int, f).contains(k));
                    }
                }
                lemma_reach_frame(b1, b2, rf as int, ff);
                assert(b2[i]->Application_func == rf);
                assert(b2[pp] == b0[pp]);
                assert(reach(b2, rf as int, ff).disjoint(reach(b2, ra as int, ff)));
                assert(ff == (fuel + fa - 1) as nat);
                assert forall|k: int| 0 <= k < b0.len() && !reach(b0, i, fuel).contains(k) && k != pp implies #[trigger] b2[k] == b0[k] by {
                    assert(b1[k] == b0[k]);
                }
            }
        },
    }
}


/// Shifting by zero changes nothing.
pub proof fn lemma_shift_zero(v: Debruijn, c: nat)
    ensures
        shift_spec(v, 0, c) == v,
    decreases v,
{
    match v {
        Debruijn::Index(_) => {},
        Debruijn::Application { func, arg } => {
            lemma_shift_zero(*func, c);
            lemma_shift_zero(*arg, c);
        },
        Debruijn::Abstraction { body } => {
            lemma_shift_zero(*body, c + 1);
        },
    }
}

/// A shift that fits still fits when it is smaller.
pub proof fn lemma_can_shift_mono(v: Debruijn, n1: nat, n2: nat, c: nat)
    requires
        can_shift(v, n2 as int, c),
        n1 <= n2,
    ensures
        can_shift(v, n1 as int, c),
    decreases v,
{
    match v {
        Debruijn::Index(_) => {},
        Debruijn::Application { func, arg } => {
            lemma_can_shift_mono(*func, n1, n2, c);
            lemma_can_shift_mono(*arg, n1, n2, c);
        },
        Debruijn::Abstraction { body } => {
            lemma_can_shift_mono(*body, n1, n2, c + 1);
        },
    }
}

/// A shift by `n + 1` that fits splits into a shift by `n` and one by 1 that fit.
pub proof fn lemma_can_shift_split(v: Debruijn, n: nat, c: nat)
    requires
        can_shift(v, (n + 1) as int, c),
    ensures
        can_shift(v, n as int, c),
        can_shift(shift_spec(v, n as int, c), 1, c),
    decreases v,
{
    match v {
        Debruijn::Index(_) => {},
        Debruijn::Application { func, arg } => {
            lemma_can_shift_split(*func, n, c);
            lemma_can_shift_split(*arg, n, c);
        },
        Debruijn::Abstraction { body } => {
            lemma_can_shift_split(*body, n, c + 1);
        },
    }
}

/// Where the variable occurs, the walk's condition lets the value be raised by the current
/// depth.
pub proof fn lemma_subst_ok_shift(t: Debruijn, va: Debruijn, m: nat, d: nat)
    requires
        subst_ok(t, va, m, d),
        crate::debruijn_flat::occurrences(t, m) > 0,
    ensures
        can_shift(va, d as int, 1),
    decreases t,
{
    match t {
        Debruijn::Index(_) => {},
        Debruijn::Application { func, arg } => {
            if crate::debruijn_flat::occurrences(*func, m) > 0 {
                lemma_subst_ok_shift(*func, va, m, d);
            } else {
                lemma_subst_ok_shift(*arg, va, m, d);
            }
        },
        Debruijn::Abstraction { body } => {
            lemma_subst_ok_shift(*body, va, m + 1, d + 1);
            lemma_can_shift_mono(va, d, d + 1, 1);
        },
    }
}

/// Without occurrences of the variable, substituting for it changes nothing.
pub proof fn lemma_subst_absent(t: Debruijn, x: Debruijn, va: Debruijn, m: nat, d: nat)
    requires
        crate::debruijn_flat::occurrences(t, m) == 0,
    ensures
        subst_spec(t, x, m) == t,
        subst_at(t, va, m, d) == t,
    decreases t,
{
    match t {
        Debruijn::Index(_) => {},
        Debruijn::Application { func, arg } => {
            lemma_subst_absent(*func, x, va, m, d);
            lemma_subst_absent(*arg, x, va, m, d);
        },
        Debruijn::Abstraction { body } => {
            lemma_subst_absent(*body, crate::reference::shift_spec(x, 1, 1), va, m + 1, d + 1);
        },
    }
}

/// The substitution walk computes the reference substitution of the value raised by the
/// depth it starts at.
pub proof fn lemma_subst_at_spec(t: Debruijn, va: Debruijn, m: nat, d: nat)
    requires
        subst_ok(t, va, m, d),
    ensures
        subst_at(t, va, m, d) == subst_spec(t, shift_spec(va, d as int, 1), m),
    decreases t,
{
    match t {
        Debruijn::Index(_) => {},
        Debruijn::Application { func, arg } => {
            lemma_subst_at_spec(*func, va, m, d);
            lemma_subst_at_spec(*arg, va, m, d);
        },
        Debruijn::Abstraction { body } => {
            lemma_subst_at_spec(*body, va, m + 1, d + 1);
            if crate::debruijn_flat::occurrences(*body, m + 1) > 0 {
                lemma_subst_ok_shift(*body, va, m + 1, d + 1);
                lemma_can_shift_split(va, d, 1);
                crate::debruijn_flat::lemma_shift_up_twice(va, d, 1);
            } else {
                lemma_subst_absent(*body, shift_spec(shift_spec(va, d as int, 1), 1, 1), va, m + 1, d + 1);
                lemma_subst_absent(*body, shift_spec(va, (d + 1) as int, 1), va, m + 1, d + 1);
            }
        },
    }
}


/// The edge that leads to `target` from `i` (itself reached by the edge `e`), first found in
/// preorder.
pub open spec fn edge_to(b: Seq<DebruijnNode>, i: int, e: Option<Parent>, fuel: nat, target: int) -> Option<Option<Parent>>
    decreases fuel,
{
    if fuel == 0 || i < 0 || i >= b.len() {
        None
    } else if i == target {
        Some(e)
    } else {
        match b[i] {
            DebruijnNode::Index(_) => None,
            DebruijnNode::Abstraction { body, .. } => edge_to(b, body as int, Some(Parent::Body(i as usize)), (fuel - 1) as nat, target),
            DebruijnNode::Application { func, arg } => match edge_to(
                b,
                func as int,
                Some(Parent::Func(i as usize)),
                (fuel - 1) as nat,
                target,
            ) {
                Some(x) => Some(x),
                None => edge_to(b, arg as int, Some(Parent::Arg(i as usize)), (fuel - 1) as nat, target),
            },
        }
    }
}

/// The term at `i` with the subterm at `p` replaced by `x`.
pub open spec fn replace_view(b: Seq<DebruijnNode>, i: int, fuel: nat, p: int, x: Debruijn) -> Option<Debruijn>
    decreases fuel,
{
    if fuel == 0 || i < 0 || i >= b.len() {
        None
    } else if i == p {
        Some(x)
    } else {
        match b[i] {
            DebruijnNode::Index(k) => Some(Debruijn::Index(k)),
            DebruijnNode::Abstraction { body, .. } => match replace_view(b, body as int, (fuel - 1) as nat, p, x) {
                Some(t) => Some(Debruijn::Abstraction { body: Box::new(t) }),
                None => None,
            },
            DebruijnNode::Application { func, arg } => match (
                replace_view(b, func as int, (fuel - 1) as nat, p, x),
                replace_view(b, arg as int, (fuel - 1) as nat, p, x),
            ) {
                (Some(f), Some(a)) => Some(Debruijn::Application { func: Box::new(f), arg: Box::new(a) }),
                _ => None,
            },
        }
    }
}

/// What holds where a target is found in a tree: it is a tree inside the one from `i`, and the
/// edge found leads to it from a node outside its subtree.
pub proof fn lemma_edge_to_facts(b: Seq<DebruijnNode>, i: int, e: Option<Parent>, fuel: nat, target: int)
    requires
        b.len() <= usize::MAX,
        is_tree(b, i, fuel),
        edge_to(b, i, e, fuel, target) is Some,
    ensures
        ({
            let pe = edge_to(b, i, e, fuel, target)->0;
            &&& is_tree(b, target, fuel)
            &&& forall|k: int| #[trigger] reach(b, target, fuel).contains(k) ==> reach(b, i, fuel).contains(k)
            &&& (target == i ==> pe == e)
            &&& (target != i ==> pe is Some && reach(b, i, fuel).contains(parent_node(pe)->0 as int)
                && !reach(b, target, fuel).contains(parent_node(pe)->0 as int) && edge_child(b, 0, pe) == Some(target as usize))
        }),
    decreases fuel,
{
    lemma_reach_basics(b, i, fuel);
    lemma_tree_fuel(b, i, fuel, fuel);
    if i != target {
        match b[i] {
            DebruijnNode::Index(_) => {},
            DebruijnNode::Abstraction { body, .. } => {
                let f = (fuel - 1) as nat;
                lemma_edge_to_facts(b, body as int, Some(Parent::Body(i as usize)), f, target);
                lemma_tree_fuel(b, target, f, fuel);
                lemma_tree_fuel(b, body as int, f, f);
                lemma_reach_basics(b, body as int, f);
            },
            DebruijnNode::Application { func, arg } => {
                let f = (fuel - 1) as nat;
                lemma_tree_fuel(b, func as int, f, f);
                lemma_tree_fuel(b, arg as int, f, f);
                lemma_reach_basics(b, func as int, f);
                lemma_reach_basics(b, arg as int, f);
                if edge_to(b, func as int, Some(Parent::Func(i as usize)), f, target) is Some {
                    lemma_edge_to_facts(b, func as int, Some(Parent::Func(i as usize)), f, target);
                } else {
                    lemma_edge_to_facts(b, arg as int, Some(Parent::Arg(i as usize)), f, target);
                }
                lemma_tree_fuel(b, target, f, fuel);
            },
        }
    }
}

/// A target is found exactly when it is reached.
pub proof fn lemma_edge_to_none(b: Seq<DebruijnNode>, i: int, e: Option<Parent>, fuel: nat, target: int)
    ensures
        edge_to(b, i, e, fuel, target) is Some <==> reach(b, i, fuel).contains(target),
    decreases fuel,
{
    lemma_reach_basics(b, i, fuel);
    if fuel > 0 && 0 <= i < b.len() && i != target {
        match b[i] {
            DebruijnNode::Index(_) => {},
            DebruijnNode::Abstraction { body, .. } => {
                lemma_edge_to_none(b, body as int, Some(Parent::Body(i as usize)), (fuel - 1) as nat, target);
            },
            DebruijnNode::Application { func, arg } => {
                lemma_edge_to_none(b, func as int, Some(Parent::Func(i as usize)), (fuel - 1) as nat, target);
                lemma_edge_to_none(b, arg as int, Some(Parent::Arg(i as usize)), (fuel - 1) as nat, target);
            },
        }
    }
}

/// Without the target in reach, replacing it changes nothing.
pub proof fn lemma_replace_away(b: Seq<DebruijnNode>, i: int, fuel: nat, p: int, x: Debruijn)
    requires
        !reach(b, i, fuel).contains(p),
    ensures
        replace_view(b, i, fuel, p, x) == node_view(b, i, fuel),
    decreases fuel,
{
    lemma_reach_basics(b, i, fuel);
    if fuel > 0 && 0 <= i < b.len() {
        match b[i] {
            DebruijnNode::Index(_) => {},
            DebruijnNode::Abstraction { body, .. } => {
                lemma_replace_away(b, body as int, (fuel - 1) as nat, p, x);
            },
            DebruijnNode::Application { func, arg } => {
                lemma_replace_away(b, func as int, (fuel - 1) as nat, p, x);
                lemma_replace_away(b, arg as int, (fuel - 1) as nat, p, x);
            },
        }
    }
}

/// Replacing, below `i`, the subtree at `p` by a subtree whose term is `x` gives the term at
/// `i` with `x` in place of the subterm at `p`, and keeps a tree.
pub proof fn lemma_replace(
    b0: Seq<DebruijnNode>,
    b: Seq<DebruijnNode>,
    i: int,
    e: Option<Parent>,
    fuel: nat,
    p: int,
    nb: usize,
    fr: nat,
    x: Debruijn,
)
    requires
        b0.len() <= usize::MAX,
        is_tree(b0, i, fuel),
        edge_to(b0, i, e, fuel, p) is Some,
        p != i,
        ({
            let pe = edge_to(b0, i, e, fuel, p)->0;
            let pp = parent_node(pe)->0 as int;
            &&& forall|k: int| #[trigger] reach(b0, i, fuel).contains(k) && !reach(b0, p, fuel).contains(k) && k != pp
                ==> k < b.len() && b[k] == b0[k]
            &&& pp < b.len()
            &&& edge_child(b, 0, pe) == Some(nb)
            &&& (b0[pp] is Abstraction <==> b[pp] is Abstraction)
            &&& pe matches Some(Parent::Func(q)) ==> b[q as int]->Application_arg == b0[q as int]->Application_arg
            &&& pe matches Some(Parent::Arg(q)) ==> b[q as int]->Application_func == b0[q as int]->Application_func
            &&& is_tree(b, nb as int, fr)
            &&& node_view(b, nb as int, fr) == Some(x)
            &&& forall|m: int| #[trigger] reach(b, nb as int, fr).contains(m) ==> !(reach(b0, i, fuel).contains(m)
                && !reach(b0, p, fuel).contains(m))
        }),
    ensures
        node_view(b, i, fuel + fr) == replace_view(b0, i, fuel, p, x),
        replace_view(b0, i, fuel, p, x) is Some,
        is_tree(b, i, fuel + fr),
        forall|m: int| #[trigger] reach(b, i, fuel + fr).contains(m) ==> (reach(b0, i, fuel).contains(m)
            && !reach(b0, p, fuel).contains(m)) || reach(b, nb as int, fr).contains(m),
    decreases fuel,
{
    let pe = edge_to(b0, i, e, fuel, p)->0;
    let pp = parent_node(pe)->0 as int;
    let f = (fuel - 1) as nat;
    let g = (fuel + fr - 1) as nat;
    assert(g == f + fr);
    lemma_reach_basics(b0, i, fuel);
    lemma_reach_basics(b, nb as int, fr);
    lemma_tree_fuel(b0, i, fuel, fuel);
    lemma_tree_fuel(b, nb as int, fr, g);
    lemma_edge_to_facts(b0, i, e, fuel, p);
    lemma_tree_fuel(b0, p, fuel, fuel);
    lemma_reach_basics(b0, p, fuel);
    match b0[i] {
        DebruijnNode::Index(_) => {},
        DebruijnNode::Abstraction { body, .. } => {
            let c = body as int;
            lemma_reach_basics(b0, c, f);
            lemma_tree_fuel(b0, c, f, f);
            assert(edge_to(b0, i, e, fuel, p) == edge_to(b0, c, Some(Parent::Body(i as usize)), f, p));
            if c == p {
                assert(pe == Some(Parent::Body(i as usize)));
                assert(b[i] is Abstraction);
                assert(b[i]->Abstraction_body == nb);
                assert(replace_view(b0, c, f, p, x) == Some(x));
                assert(node_view(b, nb as int, g) == Some(x));
                assert(replace_view(b0, i, fuel, p, x) == Some(Debruijn::Abstraction { body: Box::new(x) }));
                assert(node_view(b, i, fuel + fr) == Some(Debruijn::Abstraction { body: Box::new(x) }));
            } else {
                lemma_edge_to_facts(b0, c, Some(Parent::Body(i as usize)), f, p);
                lemma_tree_fuel(b0, p, f, fuel);
                assert(pp != i);
                assert(b[i] == b0[i]);
                assert(edge_to(b0, i, e, fuel, p) == edge_to(b0, c, Some(Parent::Body(i as usize)), f, p));
                assert forall|k: int| #[trigger] reach(b0, c, f).contains(k) && !reach(b0, p, f).contains(k) && k != pp implies k < b.len() && b[k] == b0[k] by {
                    assert(reach(b0, i, fuel).contains(k));
                }
                assert forall|m: int| #[trigger] reach(b, nb as int, fr).contains(m) implies !(reach(b0, c, f).contains(m) && !reach(b0, p, f).contains(m)) by {
                    if reach(b0, c, f).contains(m) {
                        assert(reach(b0, i, fuel).contains(m));
                    }
                }
                lemma_replace(b0, b, c, Some(Parent::Body(i as usize)), f, p, nb, fr, x);
                lemma_reach_basics(b, c, (f + fr) as nat);
                assert(!reach(b, c, (f + fr) as nat).contains(i));
                assert(node_view(b, i, fuel + fr) == replace_view(b0, i, fuel, p, x));
            }
        },
        DebruijnNode::Application { func, arg } => {
            let fi = func as int;
            let ai = arg as int;
            lemma_reach_basics(b0, fi, f);
            lemma_reach_basics(b0, ai, f);
            lemma_tree_fuel(b0, fi, f, f);
            lemma_tree_fuel(b0, ai, f, f);
            if edge_to(b0, fi, Some(Parent::Func(i as usize)), f, p) is Some {
                if fi == p {
                    assert(pe == Some(Parent::Func(i as usize)));
                    assert(b[i]->Application_func == nb);
                    assert(b[i]->Application_arg == ai);
                } else {
                    lemma_edge_to_facts(b0, fi, Some(Parent::Func(i as usize)), f, p);
                    lemma_tree_fuel(b0, p, f, fuel);
                    assert(b[i] == b0[i]);
                    assert(edge_to(b0, i, e, fuel, p) == edge_to(b0, fi, Some(Parent::Func(i as usize)), f, p));
                    assert forall|k: int| #[trigger] reach(b0, fi, f).contains(k) && !reach(b0, p, f).contains(k) && k != pp implies k < b.len() && b[k] == b0[k] by {
                        assert(reach(b0, i, fuel).contains(k));
                    }
                    assert forall|m: int| #[trigger] reach(b, nb as int, fr).contains(m) implies !(reach(b0, fi, f).contains(m) && !reach(b0, p, f).contains(m)) by {
                        if reach(b0, fi, f).contains(m) {
                            assert(reach(b0, i, fuel).contains(m));
                        }
                    }
                    lemma_replace(b0, b, fi, Some(Parent::Func(i as usize)), f, p, nb, fr, x);
                }
                lemma_tree_fuel(b0, p, f, fuel);
                lemma_edge_to_facts(b0, fi, Some(Parent::Func(i as usize)), f, p);
                assert forall|k: int| #[trigger] reach(b0, ai, f).contains(k) implies 0 <= k < b.len() && b[k] == b0[k] by {
                    assert(reach(b0, i, fuel).contains(k));
                    assert(!reach(b0, fi, f).contains(k));
                }
                lemma_reach_frame(b0, b, ai, f);
                assert(!reach(b0, ai, f).contains(p));
                lemma_replace_away(b0, ai, f, p, x);
                lemma_tree_fuel(b, ai, f, g);
                lemma_reach_basics(b, ai, f);
                lemma_reach_basics(b, fi, g);
            } else {
                lemma_edge_to_facts(b0, ai, Some(Parent::Arg(i as usize)), f, p);
                lemma_tree_fuel(b0, p, f, fuel);
                if ai == p {
                    assert(pe == Some(Parent::Arg(i as usize)));
                    assert(b[i]->Application_arg == nb);
                    assert(b[i]->Application_func == fi);
                } else {
                    assert(b[i] == b0[i]);
                    assert(edge_to(b0, i, e, fuel, p) == edge_to(b0, ai, Some(Parent::Arg(i as usize)), f, p));
                    assert forall|k: int| #[trigger] reach(b0, ai, f).contains(k) && !reach(b0, p, f).contains(k) && k != pp implies k < b.len() && b[k] == b0[k] by {
                        assert(reach(b0, i, fuel).contains(k));
                    }
                    assert forall|m: int| #[trigger] reach(b, nb as int, fr).contains(m) implies !(reach(b0, ai, f).contains(m) && !reach(b0, p, f).contains(m)) by {
                        if reach(b0, ai, f).contains(m) {
                            assert(reach(b0, i, fuel).contains(m));
                        }
                    }
                    lemma_replace(b0, b, ai, Some(Parent::Arg(i as usize)), f, p, nb, fr, x);
                }
                assert forall|k: int| #[trigger] reach(b0, fi, f).contains(k) implies 0 <= k < b.len() && b[k] == b0[k] by {
                    assert(reach(b0, i, fuel).contains(k));
                    assert(!reach(b0, ai, f).contains(k));
                }
                lemma_reach_frame(b0, b, fi, f);
                crate::debruijn_inner::lemma_edge_to_none(b0, fi, Some(Parent::Func(i as usize)), f, p);
                lemma_replace_away(b0, fi, f, p, x);
                lemma_tree_fuel(b, fi, f, g);
                lemma_reach_basics(b, fi, f);
                lemma_reach_basics(b, ai, g);
            }
        },
    }
}


/// Shifting keeps the number of nodes.
pub proof fn lemma_shift_size(v: Debruijn, n: int, c: nat)
    ensures
        shift_spec(v, n, c).size() == v.size(),
    decreases v,
{
    match v {
        Debruijn::Index(_) => {},
        Debruijn::Application { func, arg } => {
            lemma_shift_size(*func, n, c);
            lemma_shift_size(*arg, n, c);
        },
        Debruijn::Abstraction { body } => {
            lemma_shift_size(*body, n, c + 1);
        },
    }
}

/// Substitutes copies of the argument of `redex` for the variable of its abstraction in the
/// body; returns the edge that led to the application and the position where the body of the
/// abstraction now starts.
fn substitute_mut(root: &mut FlatRoot, redex: &RedexMut, Ghost(fuel): Ghost<nat>, Ghost(fa): Ghost<nat>) -> (r: (Option<Parent>, usize))
    requires
        ({
            let b = old(root).backing@;
            let ab = redex.abs as int;
            let bi = redex.body as int;
            let ai = redex.arg as int;
            let tb = node_view(b, bi, fuel)->0;
            let va = node_view(b, ai, fa)->0;
            &&& 0 <= ab < b.len()
            &&& b[ab] is Abstraction
            &&& b[ab]->Abstraction_body == redex.body
            &&& is_tree(b, bi, fuel)
            &&& is_tree(b, ai, fa)
            &&& !reach(b, bi, fuel).contains(ab)
            &&& !reach(b, ai, fa).contains(ab)
            &&& reach(b, bi, fuel).disjoint(reach(b, ai, fa))
            &&& subst_ok(tb, va, 1, 0)
            &&& b.len() + crate::debruijn_flat::occurrences(tb, 1) * va.size() < usize::MAX
        }),
    ensures
        ({
            let b0 = old(root).backing@;
            let b = final(root).backing@;
            let ab = redex.abs as int;
            let bi = redex.body as int;
            let ai = redex.arg as int;
            let tb = node_view(b0, bi, fuel)->0;
            let va = node_view(b0, ai, fa)->0;
            &&& r.0 == redex.parent
            &&& final(root).root == old(root).root
            &&& b.len() == b0.len() + crate::debruijn_flat::occurrences(tb, 1) * va.size()
            &&& forall|k: int| 0 <= k < b0.len() && !reach(b0, bi, fuel).contains(k) && k != ab ==> #[trigger] b[k] == b0[k]
            &&& b[ab] is Abstraction
            &&& b[ab]->Abstraction_body == r.1
            &&& is_tree(b, r.1 as int, fuel + fa)
            &&& node_view(b, r.1 as int, fuel + fa) == Some(subst_at(tb, va, 1, 0))
            &&& forall|k: int| #[trigger] reach(b, r.1 as int, fuel + fa).contains(k) ==> reach(b0, bi, fuel).contains(k)
                || b0.len() <= k < b.len()
        }),
{
    substitute_at(root, Parent::Body(redex.abs), redex.body, redex.arg, 1, 0, Ghost(fuel), Ghost(fa));
    let body = match root.node(redex.abs) {
        DebruijnNode::Abstraction { body, .. } => body,
        _ => vstd::pervasive::unreached(),
    };
    (redex.parent, body)
}

impl FlatRoot {
    /// The application of `r`: the node that its edge leads to.
    pub open spec fn redex_app(&self, r: RedexMut) -> int {
        edge_child(self.backing@, self.root, r.parent)->0 as int
    }

    /// `r` is a redex of the tree, reached by its recorded edge, with the positions and usage
    /// that `try_get` reads there.
    pub open spec fn holds_redex(&self, r: RedexMut) -> bool {
        &&& edge_child(self.backing@, self.root, r.parent) is Some
        &&& edge_to(self.backing@, self.root as int, None, self.tree_fuel(), self.redex_app(r)) == Some(r.parent)
        &&& redex_spec(self.backing@, r.parent, self.redex_app(r)) == Some(r)
    }

    /// The term in the body of the abstraction of `r`.
    pub open spec fn redex_body(&self, r: RedexMut) -> Debruijn {
        node_view(self.backing@, r.body as int, self.tree_fuel())->0
    }

    /// The term in the argument of `r`.
    pub open spec fn redex_arg(&self, r: RedexMut) -> Debruijn {
        node_view(self.backing@, r.arg as int, self.tree_fuel())->0
    }

    /// The term with the application of `r` replaced by `x`.
    pub open spec fn replaced(&self, r: RedexMut, x: Debruijn) -> Debruijn {
        replace_view(self.backing@, self.root as int, self.tree_fuel(), self.redex_app(r), x)->0
    }
}

/// In a tree whose usages all count the occurrences of their variables, the node that a
/// search from `i` finds is a tree whose usages do too.
proof fn lemma_usages_found(b: Seq<DebruijnNode>, i: int, e: Option<Parent>, fuel: nat, target: int)
    requires
        is_tree(b, i, fuel),
        usages_match(b, i, fuel),
        edge_to(b, i, e, fuel, target) is Some,
    ensures
        is_tree(b, target, fuel),
        usages_match(b, target, fuel),
    decreases fuel,
{
    if i != target {
        let f = (fuel - 1) as nat;
        match b[i] {
            DebruijnNode::Index(_) => {},
            DebruijnNode::Abstraction { body, .. } => {
                lemma_usages_found(b, body as int, Some(Parent::Body(i as usize)), f, target);
            },
            DebruijnNode::Application { func, arg } => {
                if edge_to(b, func as int, Some(Parent::Func(i as usize)), f, target) is Some {
                    lemma_usages_found(b, func as int, Some(Parent::Func(i as usize)), f, target);
                } else {
                    lemma_usages_found(b, arg as int, Some(Parent::Arg(i as usize)), f, target);
                }
            },
        }
        lemma_tree_fuel(b, target, f, fuel);
        lemma_usages_fuel(b, target, f, fuel);
    }
}

/// In a tree whose every usage counts the occurrences of its variable, as `from_debruijn`
/// builds it, the usage that a redex of the tree records is the number of occurrences of the
/// variable in the body of its abstraction.
pub proof fn lemma_redex_usage(root: FlatRoot, r: RedexMut)
    requires
        root.well_formed(),
        usages_match(root.backing@, root.root as int, root.tree_fuel()),
        root.holds_redex(r),
    ensures
        r.usage == crate::debruijn_flat::occurrences(root.redex_body(r), 1),
{
    let b = root.backing@;
    let fuel = root.tree_fuel();
    let p = root.redex_app(r);
    assert(is_tree(b, root.root as int, fuel));
    lemma_usages_found(b, root.root as int, None, fuel, p);
    assert(redex_spec(b, r.parent, p) == Some(r));
    let func = b[p]->Application_func as int;
    let body = b[func]->Abstraction_body as int;
    assert(r.abs as int == func && r.body as int == body && r.usage == b[func]->Abstraction_usage);
    assert(usages_match(b, func, (fuel - 1) as nat));
    assert(is_tree(b, func, (fuel - 1) as nat));
    assert(is_tree(b, body, (fuel - 2) as nat));
    lemma_tree_fuel(b, body, (fuel - 2) as nat, fuel);
    assert(r.usage == crate::debruijn_flat::occurrences(node_view(b, body, (fuel - 2) as nat)->0, 1));
}

/// Contracts the redex `redex` in place: the edge that led to its application now leads to its
/// body, in which copies of the argument (raised by one, and by the depth of each occurrence)
/// replaced the variable and whose free indices were then lowered by one. When the recorded
/// usage is zero, the argument is dropped and the body only lowered. Edges into abstractions
/// get the usage of their new body.
#[verifier::rlimit(100)]
#[verifier::spinoff_prover]
pub fn substitute_arg_into_body_mut(root: &mut FlatRoot, redex: RedexMut)
    requires
        old(root).well_formed(),
        old(root).backing@.len() < usize::MAX,
        old(root).holds_redex(redex),
        ({
            let tb = old(root).redex_body(redex);
            let ta = old(root).redex_arg(redex);
            let va = shift_spec(ta, 1, 1);
            &&& redex.usage == 0 ==> can_shift(tb, -1, 1)
            &&& redex.usage != 0 ==> can_shift(ta, 1, 1) && subst_ok(tb, va, 1, 0) && can_shift(subst_spec(tb, va, 1), -1, 1)
                && old(root).backing@.len() + crate::debruijn_flat::occurrences(tb, 1) * ta.size() < usize::MAX
        }),
    ensures
        final(root).well_formed(),
        ({
            let tb = old(root).redex_body(redex);
            let ta = old(root).redex_arg(redex);
            &&& redex.usage == 0 ==> final(root).term() == old(root).replaced(redex, shift_spec(tb, -1, 1))
            &&& redex.usage != 0 ==> final(root).term() == old(root).replaced(redex, crate::reference::beta_spec(tb, ta))
            &&& redex.usage == crate::debruijn_flat::occurrences(tb, 1) ==> final(root).term() == old(root).replaced(
                redex,
                crate::reference::beta_spec(tb, ta),
            )
        }),
{
    let ghost b0 = root.backing@;
    let ghost r0 = root.root as int;
    let ghost fuel = root.tree_fuel();
    let ghost p = root.redex_app(redex);
    let ghost pe = redex.parent;
    let ghost pp = parent_node(pe)->0 as int;
    let ghost ab = redex.abs as int;
    let ghost bi = redex.body as int;
    let ghost ai = redex.arg as int;
    let ghost fb = (fuel - 2) as nat;
    let ghost fa = (fuel - 1) as nat;
    let ghost tb = root.redex_body(redex);
    let ghost ta = root.redex_arg(redex);
    proof {
        assert(is_tree(b0, r0, fuel));
        lemma_edge_to_facts(b0, r0, None, fuel, p);
        lemma_reach_basics(b0, r0, fuel);
        lemma_reach_basics(b0, p, fuel);
        assert(b0[p] == DebruijnNode::Application { func: redex.abs, arg: redex.arg });
        assert(is_tree(b0, ab, fa));
        assert(is_tree(b0, bi, fb));
        assert(is_tree(b0, ai, fa));
        lemma_tree_fuel(b0, bi, fb, fuel);
        lemma_tree_fuel(b0, ai, fa, fuel);
        lemma_tree_fuel(b0, ab, fa, fa);
        lemma_reach_basics(b0, ab, fa);
        lemma_reach_basics(b0, bi, fb);
        lemma_reach_basics(b0, ai, fa);
        assert(reach(b0, bi, fb).disjoint(reach(b0, ai, fa)));
        assert(!reach(b0, ai, fa).contains(ab));
        assert forall|k: int| #[trigger] reach(b0, bi, fb).contains(k) implies reach(b0, p, fuel).contains(k) by {
            assert(reach(b0, ab, fa).contains(k));
        }
        assert forall|k: int| #[trigger] reach(b0, ai, fa).contains(k) implies reach(b0, p, fuel).contains(k) by {}
        assert(reach(b0, p, fuel).contains(ab));
        if pe is Some {
            assert(!reach(b0, p, fuel).contains(pp));
        }
        if redex.usage == 0 && crate::debruijn_flat::occurrences(tb, 1) == 0 {
            lemma_subst_absent(tb, shift_spec(ta, 1, 1), ta, 1, 0);
        }
    }
    if redex.usage == 0 {
        down_one_mut(root, redex.body, Ghost(fb));
        let ghost b1 = root.backing@;
        proof {
            if pe is Some {
                assert(b1[pp] == b0[pp]);
            }
        }
        repoint_node(root, redex.parent, redex.body, Ghost(fb));
        proof {
            let b2 = root.backing@;
            let x = shift_spec(tb, -1, 1);
            lemma_tree_fuel(b1, bi, fb, fb);
            assert forall|k: int| #[trigger] reach(b1, bi, fb).contains(k) implies 0 <= k < b2.len() && b2[k] == b1[k] by {}
            lemma_reach_frame(b1, b2, bi, fb);
            if pe is None {
                assert(p == r0);
                let g = root.tree_fuel();
                if g <= fb {
                    lemma_tree_fuel(b2, bi, g, fb);
                } else {
                    lemma_tree_fuel(b2, bi, fb, g);
                }
            } else {
                assert forall|k: int| #[trigger] reach(b0, r0, fuel).contains(k) && !reach(b0, p, fuel).contains(k) && k != pp
                    implies k < b2.len() && b2[k] == b0[k] by {
                    assert(!reach(b0, bi, fb).contains(k));
                }
                lemma_replace(b0, b2, r0, None, fuel, p, redex.body, fb, x);
                let g = root.tree_fuel();
                let h = (fuel + fb) as nat;
                if g <= h {
                    lemma_tree_fuel(b2, r0, g, h);
                } else {
                    lemma_tree_fuel(b2, r0, h, g);
                }
            }
        }
    } else {
        up_one_mut(root, redex.arg, Ghost(fa));
        let ghost b1 = root.backing@;
        proof {
            lemma_tree_fuel(b0, bi, fb, fb);
            assert forall|k: int| #[trigger] reach(b0, bi, fb).contains(k) implies 0 <= k < b1.len() && b1[k] == b0[k] by {}
            lemma_reach_frame(b0, b1, bi, fb);
            lemma_shift_size(ta, 1, 1);
            assert(b1[ab] == b0[ab]);
        }
        let (parent, new_body) = substitute_mut(root, &redex, Ghost(fb), Ghost(fa));
        let ghost b2 = root.backing@;
        let ghost fr = (fb + fa) as nat;
        let ghost va = shift_spec(ta, 1, 1);
        proof {
            lemma_subst_at_spec(tb, va, 1, 0);
            lemma_shift_zero(va, 1);
        }
        down_one_mut(root, new_body, Ghost(fr));
        let ghost b3 = root.backing@;
        proof {
            lemma_reach_basics(b2, new_body as int, fr);
            if pe is Some {
                assert(b1[pp] == b0[pp]);
                assert(b2[pp] == b1[pp]);
                assert(b3[pp] == b2[pp]);
            }
        }
        repoint_node(root, parent, new_body, Ghost(fr));
        proof {
            let b4 = root.backing@;
            let x = crate::reference::beta_spec(tb, ta);
            lemma_tree_fuel(b3, new_body as int, fr, fr);
            assert forall|k: int| #[trigger] reach(b3, new_body as int, fr).contains(k) implies 0 <= k < b4.len() && b4[k] == b3[k] by {
                if pe is Some && k == pp {
                    assert(reach(b2, new_body as int, fr).contains(k));
                }
            }
            lemma_reach_frame(b3, b4, new_body as int, fr);
            if pe is None {
                assert(p == r0);
                let g = root.tree_fuel();
                if g <= fr {
                    lemma_tree_fuel(b4, new_body as int, g, fr);
                } else {
                    lemma_tree_fuel(b4, new_body as int, fr, g);
                }
            } else {
                assert forall|k: int| #[trigger] reach(b0, r0, fuel).contains(k) && !reach(b0, p, fuel).contains(k) && k != pp
                    implies k < b4.len() && b4[k] == b0[k] by {
                    assert(!reach(b0, bi, fb).contains(k));
                    assert(!reach(b0, ai, fa).contains(k));
                    assert(k != ab);
                    assert(b1[k] == b0[k]);
                    assert(b2[k] == b1[k]);
                    if reach(b2, new_body as int, fr).contains(k) {
                        assert(false);
                    }
                    assert(b3[k] == b2[k]);
                }
                assert forall|m: int| #[trigger] reach(b4, new_body as int, fr).contains(m) implies !(reach(b0, r0, fuel).contains(m)
                    && !reach(b0, p, fuel).contains(m)) by {
                    assert(reach(b2, new_body as int, fr).contains(m));
                }
                lemma_replace(b0, b4, r0, None, fuel, p, new_body, fr, x);
                let g = root.tree_fuel();
                let h = (fuel + fr) as nat;
                if g <= h {
                    lemma_tree_fuel(b4, r0, g, h);
                } else {
                    lemma_tree_fuel(b4, r0, h, g);
                }
            }
        }
    }
}

} // verus!
