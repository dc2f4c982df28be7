//! A lambda term stored flat in one vector. Variables refer to the abstraction that binds them
//! by its position in the vector, so a term can be reduced in place.
use vstd::prelude::*;

use crate::debruijn::Debruijn;

verus! {

/// The position of a node in the vector of a `FlatTree`.
#[derive(Debug, Clone, Copy, PartialEq, Eq, Hash, Structural)]
pub struct BackingIndex(pub usize);

/// What a variable refers to.
#[derive(Debug, Clone, Copy, PartialEq, Eq, Hash, Structural)]
pub enum Binding {
    /// The abstraction, by position, that binds the variable.
    Bound(BackingIndex),
    /// A variable bound this many abstractions above the whole term (at least 1).
    Free(usize),
}

/// An abstraction node: its body and the number of times its variable occurs there.
#[derive(Debug, Clone, Copy, PartialEq, Eq, Hash, Structural)]
pub struct Abstraction {
    pub body: BackingIndex,
    pub usage: usize,
}

/// An application node.
#[derive(Debug, Clone, Copy, PartialEq, Eq, Hash, Structural)]
pub struct Application {
    pub func: BackingIndex,
    pub arg: BackingIndex,
}

/// One node of a `FlatTree`.
#[derive(Debug, Clone, Copy, PartialEq, Eq, Hash, Structural)]
pub enum DebruijnNode {
    Index(Binding),
    Abstraction(Abstraction),
    Application(Application),
}

/// The edge that leads to a node, named by the node it comes from.
#[derive(Debug, Clone, Copy, PartialEq, Eq, Structural)]
pub enum EdgeWithParent {
    /// The node is the root.
    IntoRoot,
    /// The node is the body of this abstraction.
    AbsToBody(BackingIndex),
    /// The node is the function of this application.
    AppToFunc(BackingIndex),
    /// The node is the argument of this application.
    AppToArg(BackingIndex),
}

/// An edge together with the node it leads to.
#[derive(Debug, Clone, Copy, PartialEq, Eq, Structural)]
pub struct DoubleEndedEdge {
    pub edge_w_parent: EdgeWithParent,
    pub child: BackingIndex,
}

/// A lambda term as a vector of nodes and the position of its root.
#[derive(Debug)]
pub struct FlatTree {
    pub backing: Vec<DebruijnNode>,
    pub root: BackingIndex,
}

/// The first position of `b` in `chain`, or -1 when it does not occur.
pub open spec fn chain_pos(chain: Seq<BackingIndex>, b: BackingIndex) -> int
    decreases chain.len(),
{
    if chain.len() == 0 {
        -1
    } else if chain[0] == b {
        0
    } else {
        let p = chain_pos(chain.drop_first(), b);
        if p < 0 {
            -1
        } else {
            p + 1
        }
    }
}

/// The de Bruijn index of a variable with this binding under the abstractions of `chain`
/// (outermost first), or `None` when the binding names no abstraction of the chain or the
/// index does not fit in `usize`.
pub open spec fn binding_index(chain: Seq<BackingIndex>, binding: Binding) -> Option<usize> {
    match binding {
        Binding::Bound(a) => {
            let p = chain_pos(chain, a);
            if p >= 0 {
                Some((chain.len() - p) as usize)
            } else {
                None
            }
        },
        Binding::Free(h) => if h >= 1 && chain.len() + h <= usize::MAX {
            Some((chain.len() + h) as usize)
        } else {
            None
        },
    }
}

/// The term stored at position `i` under the abstractions of `chain`, unfolding at most `fuel`
/// nodes deep; `None` when a position is out of range, a binding is invalid or the fuel runs out.
pub open spec fn node_view(b: Seq<DebruijnNode>, i: int, chain: Seq<BackingIndex>, fuel: nat) -> Option<
    Debruijn,
>
    decreases fuel,
{
    if fuel == 0 || i < 0 || i >= b.len() {
        None
    } else {
        match b[i] {
            DebruijnNode::Index(binding) => match binding_index(chain, binding) {
                Some(k) => Some(Debruijn::Index(k)),
                None => None,
            },
            DebruijnNode::Abstraction(abs) => match node_view(
                b,
                abs.body.0 as int,
                chain.push(BackingIndex(i as usize)),
                (fuel - 1) as nat,
            ) {
                Some(t) => Some(Debruijn::Abstraction { body: Box::new(t) }),
                None => None,
            },
            DebruijnNode::Application(app) => match (
                node_view(b, app.func.0 as int, chain, (fuel - 1) as nat),
                node_view(b, app.arg.0 as int, chain, (fuel - 1) as nat),
            ) {
                (Some(f), Some(a)) => Some(
                    Debruijn::Application { func: Box::new(f), arg: Box::new(a) },
                ),
                _ => None,
            },
        }
    }
}

/// More fuel does not change a view that exists.
pub proof fn lemma_view_fuel(b: Seq<DebruijnNode>, i: int, chain: Seq<BackingIndex>, f1: nat, f2: nat)
    requires
        node_view(b, i, chain, f1) is Some,
        f1 <= f2,
    ensures
        node_view(b, i, chain, f2) == node_view(b, i, chain, f1),
    decreases f1,
{
    if f1 > 0 {
        match b[i] {
            DebruijnNode::Index(_) => {},
            DebruijnNode::Abstraction(abs) => {
                lemma_view_fuel(
                    b,
                    abs.body.0 as int,
                    chain.push(BackingIndex(i as usize)),
                    (f1 - 1) as nat,
                    (f2 - 1) as nat,
                );
            },
            DebruijnNode::Application(app) => {
                lemma_view_fuel(b, app.func.0 as int, chain, (f1 - 1) as nat, (f2 - 1) as nat);
                lemma_view_fuel(b, app.arg.0 as int, chain, (f1 - 1) as nat, (f2 - 1) as nat);
            },
        }
    }
}

/// A view that exists needs no more fuel than the size of its term.
pub proof fn lemma_view_size(b: Seq<DebruijnNode>, i: int, chain: Seq<BackingIndex>, f: nat)
    requires
        node_view(b, i, chain, f) is Some,
    ensures
        node_view(b, i, chain, node_view(b, i, chain, f)->0.size()) == node_view(b, i, chain, f),
    decreases f,
{
    let n = node_view(b, i, chain, f)->0.size();
    match b[i] {
        DebruijnNode::Index(_) => {},
        DebruijnNode::Abstraction(abs) => {
            let c2 = chain.push(BackingIndex(i as usize));
            lemma_view_size(b, abs.body.0 as int, c2, (f - 1) as nat);
        },
        DebruijnNode::Application(app) => {
            let fi = app.func.0 as int;
            let ai = app.arg.0 as int;
            lemma_view_size(b, fi, chain, (f - 1) as nat);
            lemma_view_size(b, ai, chain, (f - 1) as nat);
            let sf = node_view(b, fi, chain, (f - 1) as nat)->0.size();
            let sa = node_view(b, ai, chain, (f - 1) as nat)->0.size();
            lemma_view_fuel(b, fi, chain, sf, (n - 1) as nat);
            lemma_view_fuel(b, ai, chain, sa, (n - 1) as nat);
        },
    }
}

impl FlatTree {
    /// The tree holds a term: from the root every position is in range, every bound variable
    /// lies under the abstraction it names and the nodes unfold finitely.
    pub open spec fn valid(&self) -> bool {
        exists|f: nat| #[trigger] node_view(self.backing@, self.root.0 as int, Seq::empty(), f) is Some
    }

    /// Enough fuel to unfold a valid tree.
    pub open spec fn fuel(&self) -> nat {
        choose|f: nat| #[trigger] node_view(self.backing@, self.root.0 as int, Seq::empty(), f) is Some
    }

    /// The nodes reached from the root form a tree, no node shared, that holds a term.
    pub open spec fn well_formed(&self) -> bool {
        exists|f: nat|
            #[trigger] is_tree(self.backing@, self.root.0 as int, f) && node_view(self.backing@, self.root.0 as int, Seq::empty(), f) is Some
    }

    /// Enough fuel to unfold a well-formed tree as a tree.
    pub open spec fn tree_fuel(&self) -> nat {
        choose|f: nat|
            #[trigger] is_tree(self.backing@, self.root.0 as int, f) && node_view(self.backing@, self.root.0 as int, Seq::empty(), f) is Some
    }

    /// The term that a valid tree holds.
    pub open spec fn term(&self) -> Debruijn {
        node_view(self.backing@, self.root.0 as int, Seq::empty(), self.fuel())->0
    }
}

/// `chain_pos` is the first position that holds `b`.
pub proof fn lemma_chain_pos(chain: Seq<BackingIndex>, b: BackingIndex, p: int)
    requires
        0 <= p <= chain.len(),
        forall|j: int| 0 <= j < p ==> chain[j] != b,
    ensures
        p < chain.len() && chain[p] == b ==> chain_pos(chain, b) == p,
        p == chain.len() ==> chain_pos(chain, b) == -1,
    decreases p,
{
    if p > 0 {
        assert(chain[0] != b);
        let rest = chain.drop_first();
        assert forall|j: int| 0 <= j < p - 1 implies rest[j] != b by {
            assert(rest[j] == chain[j + 1]);
        }
        lemma_chain_pos(rest, b, p - 1);
        if p < chain.len() && chain[p] == b {
            assert(rest[p - 1] == chain[p]);
        }
    }
}

/// A position found by `chain_pos` holds `b`, and no earlier one does.
pub proof fn lemma_chain_pos_found(chain: Seq<BackingIndex>, b: BackingIndex)
    ensures
        chain_pos(chain, b) >= 0 ==> chain_pos(chain, b) < chain.len() && chain[chain_pos(chain, b)]
            == b,
        chain_pos(chain, b) < 0 ==> forall|j: int| 0 <= j < chain.len() ==> chain[j] != b,
        chain_pos(chain, b) >= -1,
    decreases chain.len(),
{
    if chain.len() > 0 && chain[0] != b {
        let rest = chain.drop_first();
        lemma_chain_pos_found(rest, b);
        if chain_pos(rest, b) < 0 {
            assert forall|j: int| 0 <= j < chain.len() implies chain[j] != b by {
                if j > 0 {
                    assert(chain[j] == rest[j - 1]);
                }
            }
        } else {
            assert(chain[chain_pos(chain, b)] == rest[chain_pos(rest, b)]);
        }
    }
}

/// The de Bruijn index of a variable under the abstractions of `abstraction_chain` (outermost
/// first): a bound variable counts the abstractions from the innermost one down to the one
/// that binds it; a free one adds its height to the length of the chain.
pub fn compute_debruijn_index(abstraction_chain: &[BackingIndex], binding: Binding) -> (r: usize)
    requires
        binding_index(abstraction_chain@, binding) is Some,
    ensures
        Some(r) == binding_index(abstraction_chain@, binding),
{
    let debruijn_depth = abstraction_chain.len();
    match binding {
        Binding::Bound(backing_index) => {
            let mut p: usize = 0;
            while p < abstraction_chain.len() && abstraction_chain[p] != backing_index
                invariant
                    p <= abstraction_chain@.len(),
                    forall|j: int| 0 <= j < p ==> abstraction_chain@[j] != backing_index,
                decreases abstraction_chain@.len() - p,
            {
                p = p + 1;
            }
            proof {
                lemma_chain_pos(abstraction_chain@, backing_index, p as int);
            }
            debruijn_depth - p
        },
        Binding::Free(free_height) => debruijn_depth + free_height,
    }
}

impl FlatTree {
    /// The node at `i`.
    fn node(&self, i: BackingIndex) -> (n: DebruijnNode)
        requires
            i.0 < self.backing@.len(),
        ensures
            n == self.backing@[i.0 as int],
    {
        self.backing[i.0]
    }

    /// The term at `index` under the abstractions of `chain`.
    fn unflatten_at(&self, chain: &mut Vec<BackingIndex>, index: BackingIndex, Ghost(fuel): Ghost<nat>) -> (r: Debruijn)
        requires
            node_view(self.backing@, index.0 as int, old(chain)@, fuel) is Some,
        ensures
            r == node_view(self.backing@, index.0 as int, old(chain)@, fuel)->0,
            final(chain)@ == old(chain)@,
        decreases fuel,
    {
        match self.node(index) {
            DebruijnNode::Index(binding) => {
                let k = compute_debruijn_index(chain.as_slice(), binding);
                Debruijn::Index(k)
            },
            DebruijnNode::Abstraction(abstraction) => {
                chain.push(index);
                let body = self.unflatten_at(chain, abstraction.body, Ghost((fuel - 1) as nat));
                chain.pop();
                proof {
                    assert(chain@ =~= old(chain)@);
                }
                Debruijn::Abstraction { body: Box::new(body) }
            },
            DebruijnNode::Application(application) => {
                let func = self.unflatten_at(chain, application.func, Ghost((fuel - 1) as nat));
                let arg = self.unflatten_at(chain, application.arg, Ghost((fuel - 1) as nat));
                Debruijn::Application { func: Box::new(func), arg: Box::new(arg) }
            },
        }
    }

    /// The term that the tree holds.
    pub fn to_debruijn(&self) -> (r: Debruijn)
        requires
            self.valid(),
        ensures
            r == self.term(),
    {
        let mut chain: Vec<BackingIndex> = Vec::new();
        proof {
            assert(chain@ =~= Seq::<BackingIndex>::empty());
        }
        self.unflatten_at(&mut chain, self.root, Ghost(self.fuel()))
    }
}

/// The number of times the variable of index `depth` (one more under each abstraction) occurs
/// in `t`.
pub open spec fn occurrences(t: Debruijn, depth: nat) -> nat
    decreases t,
{
    match t {
        Debruijn::Index(i) => if i == depth {
            1
        } else {
            0
        },
        Debruijn::Application { func, arg } => occurrences(*func, depth) + occurrences(*arg, depth),
        Debruijn::Abstraction { body } => occurrences(*body, depth + 1),
    }
}

/// A variable occurs at most once per node.
pub proof fn lemma_occurrences_size(t: Debruijn, depth: nat)
    ensures
        occurrences(t, depth) <= t.size(),
        t.size() >= 1,
    decreases t,
{
    match t {
        Debruijn::Index(_) => {},
        Debruijn::Application { func, arg } => {
            lemma_occurrences_size(*func, depth);
            lemma_occurrences_size(*arg, depth);
        },
        Debruijn::Abstraction { body } => {
            lemma_occurrences_size(*body, depth + 1);
        },
    }
}

/// The number of times the variable of the abstraction whose body is `body` occurs in it.
fn compute_usage(body: &Debruijn) -> (r: usize)
    requires
        body.size() < usize::MAX,
    ensures
        r == occurrences(*body, 1),
{
    compute_usage_at(body, 1)
}

fn compute_usage_at(term: &Debruijn, depth: usize) -> (r: usize)
    requires
        depth + term.size() <= usize::MAX,
    ensures
        r == occurrences(*term, depth as nat),
    decreases term,
{
    proof {
        lemma_occurrences_size(*term, depth as nat);
    }
    match term {
        Debruijn::Index(index) => if *index == depth {
            1
        } else {
            0
        },
        Debruijn::Application { func, arg } => {
            proof {
                lemma_occurrences_size(**func, depth as nat);
                lemma_occurrences_size(**arg, depth as nat);
            }
            compute_usage_at(func, depth) + compute_usage_at(arg, depth)
        },
        Debruijn::Abstraction { body } => {
            proof {
                lemma_occurrences_size(**body, (depth + 1) as nat);
            }
            compute_usage_at(body, depth + 1)
        },
    }
}

/// Every node reached from `i` within `fuel` steps lies in `[lo, hi)`.
pub open spec fn within(b: Seq<DebruijnNode>, i: int, lo: int, hi: int, fuel: nat) -> bool
    decreases fuel,
{
    &&& fuel > 0
    &&& lo <= i < hi
    &&& i < b.len()
    &&& match b[i] {
        DebruijnNode::Index(_) => true,
        DebruijnNode::Abstraction(abs) => within(b, abs.body.0 as int, lo, hi, (fuel - 1) as nat),
        DebruijnNode::Application(app) => within(b, app.func.0 as int, lo, hi, (fuel - 1) as nat)
            && within(b, app.arg.0 as int, lo, hi, (fuel - 1) as nat),
    }
}

/// Two vectors that agree on `[lo, hi)` give the same view of a node whose subtree lies there.
pub proof fn lemma_within_frame(
    b1: Seq<DebruijnNode>,
    b2: Seq<DebruijnNode>,
    i: int,
    lo: int,
    hi: int,
    fuel: nat,
    chain: Seq<BackingIndex>,
)
    requires
        within(b1, i, lo, hi, fuel),
        hi <= b2.len(),
        forall|k: int| lo <= k < hi ==> b2[k] == b1[k],
    ensures
        within(b2, i, lo, hi, fuel),
        node_view(b2, i, chain, fuel) == node_view(b1, i, chain, fuel),
    decreases fuel,
{
    match b1[i] {
        DebruijnNode::Index(_) => {},
        DebruijnNode::Abstraction(abs) => {
            lemma_within_frame(
                b1,
                b2,
                abs.body.0 as int,
                lo,
                hi,
                (fuel - 1) as nat,
                chain.push(BackingIndex(i as usize)),
            );
        },
        DebruijnNode::Application(app) => {
            lemma_within_frame(b1, b2, app.func.0 as int, lo, hi, (fuel - 1) as nat, chain);
            lemma_within_frame(b1, b2, app.arg.0 as int, lo, hi, (fuel - 1) as nat, chain);
        },
    }
}

/// A subtree within a range and some fuel is within any wider range and more fuel.
pub proof fn lemma_within_widen(
    b: Seq<DebruijnNode>,
    i: int,
    lo: int,
    hi: int,
    fuel: nat,
    lo2: int,
    hi2: int,
    fuel2: nat,
)
    requires
        within(b, i, lo, hi, fuel),
        lo2 <= lo,
        hi <= hi2,
        fuel <= fuel2,
    ensures
        within(b, i, lo2, hi2, fuel2),
    decreases fuel,
{
    match b[i] {
        DebruijnNode::Index(_) => {},
        DebruijnNode::Abstraction(abs) => {
            lemma_within_widen(
                b,
                abs.body.0 as int,
                lo,
                hi,
                (fuel - 1) as nat,
                lo2,
                hi2,
                (fuel2 - 1) as nat,
            );
        },
        DebruijnNode::Application(app) => {
            lemma_within_widen(b, app.func.0 as int, lo, hi, (fuel - 1) as nat, lo2, hi2, (fuel2 - 1) as nat);
            lemma_within_widen(b, app.arg.0 as int, lo, hi, (fuel - 1) as nat, lo2, hi2, (fuel2 - 1) as nat);
        },
    }
}

/// The positions of `chain` increase strictly and lie below `n`.
pub open spec fn chain_below(chain: Seq<BackingIndex>, n: int) -> bool {
    &&& forall|j: int, k: int| 0 <= j < k < chain.len() ==> chain[j].0 < chain[k].0
    &&& forall|j: int| 0 <= j < chain.len() ==> chain[j].0 < n
}

/// In an increasing chain, every element's first position is its position.
pub proof fn lemma_chain_pos_increasing(chain: Seq<BackingIndex>, p: int)
    requires
        forall|j: int, k: int| 0 <= j < k < chain.len() ==> chain[j].0 < chain[k].0,
        0 <= p < chain.len(),
    ensures
        chain_pos(chain, chain[p]) == p,
{
    lemma_chain_pos(chain, chain[p], p);
}

impl FlatTree {
    fn new() -> (t: FlatTree)
        ensures
            t.backing@.len() == 0,
            t.root == BackingIndex(0),
    {
        FlatTree { backing: Vec::new(), root: BackingIndex(0) }
    }

    /// Appends a placeholder node, to be overwritten, and returns its position.
    fn alloc_none(&mut self) -> (r: BackingIndex)
        ensures
            final(self).backing@ == old(self).backing@.push(
                DebruijnNode::Index(Binding::Bound(BackingIndex(usize::MAX))),
            ),
            final(self).root == old(self).root,
            r.0 == old(self).backing@.len(),
    {
        let backing_index = BackingIndex(self.backing.len());
        self.backing.push(DebruijnNode::Index(Binding::Bound(BackingIndex(usize::MAX))));
        backing_index
    }

    /// Appends `term` and returns its position.
    fn alloc_node(&mut self, term: DebruijnNode) -> (r: BackingIndex)
        ensures
            final(self).backing@ == old(self).backing@.push(term),
            final(self).root == old(self).root,
            r.0 == old(self).backing@.len(),
    {
        let term_index = BackingIndex(self.backing.len());
        self.backing.push(term);
        term_index
    }

    /// Overwrites the node at `i`.
    fn set_node(&mut self, i: BackingIndex, n: DebruijnNode)
        requires
            i.0 < old(self).backing@.len(),
        ensures
            final(self).backing@ == old(self).backing@.update(i.0 as int, n),
            final(self).root == old(self).root,
    {
        self.backing.set(i.0, n);
    }
}

/// The position of the root node of `t` when it is laid out from `base`: an application comes
/// after its two parts, any other node first.
pub open spec fn layout_root(t: Debruijn, base: int) -> int {
    match t {
        Debruijn::Application { .. } => base + t.size() - 1,
        _ => base,
    }
}

/// The nodes that lay `t` out from position `base` under the abstractions of `chain`: an
/// abstraction before its body, with the occurrences of its variable as usage; an application
/// after its function and its argument; an index bound to the abstraction it counts up to, or
/// free past the chain.
pub open spec fn layout(t: Debruijn, base: int, chain: Seq<BackingIndex>) -> Seq<DebruijnNode>
    decreases t,
{
    match t {
        Debruijn::Index(k) => seq![
            DebruijnNode::Index(
                if k > chain.len() {
                    Binding::Free((k - chain.len()) as usize)
                } else {
                    Binding::Bound(chain[chain.len() - k])
                },
            ),
        ],
        Debruijn::Abstraction { body } => seq![
            DebruijnNode::Abstraction(
                Abstraction {
                    body: BackingIndex(layout_root(*body, base + 1) as usize),
                    usage: occurrences(*body, 1) as usize,
                },
            ),
        ] + layout(*body, base + 1, chain.push(BackingIndex(base as usize))),
        Debruijn::Application { func, arg } => layout(*func, base, chain) + layout(*arg, base + func.size(), chain)
            + seq![
            DebruijnNode::Application(
                Application {
                    func: BackingIndex(layout_root(*func, base) as usize),
                    arg: BackingIndex(layout_root(*arg, base + func.size()) as usize),
                },
            ),
        ],
    }
}

/// A term is laid out in as many nodes as it has.
pub proof fn lemma_layout_len(t: Debruijn, base: int, c: Seq<BackingIndex>)
    ensures
        layout(t, base, c).len() == t.size(),
    decreases t,
{
    match t {
        Debruijn::Index(_) => {},
        Debruijn::Abstraction { body } => {
            lemma_layout_len(*body, base + 1, c.push(BackingIndex(base as usize)));
        },
        Debruijn::Application { func, arg } => {
            lemma_layout_len(*func, base, c);
            lemma_layout_len(*arg, base + func.size(), c);
        },
    }
}

/// Laying out an application is laying out its function, then its argument, then the node.
proof fn lemma_layout_app(
    b0: Seq<DebruijnNode>,
    after_func: Seq<DebruijnNode>,
    after_arg: Seq<DebruijnNode>,
    b: Seq<DebruijnNode>,
    t: Debruijn,
    c: Seq<BackingIndex>,
)
    requires
        t matches Debruijn::Application { func, arg } && {
            &&& after_func == b0 + layout(*func, b0.len() as int, c)
            &&& after_arg == after_func + layout(*arg, after_func.len() as int, c)
            &&& b == after_arg.push(
                DebruijnNode::Application(
                    Application {
                        func: BackingIndex(layout_root(*func, b0.len() as int) as usize),
                        arg: BackingIndex(layout_root(*arg, after_func.len() as int) as usize),
                    },
                ),
            )
        },
    ensures
        b == b0 + layout(t, b0.len() as int, c),
{
    if let Debruijn::Application { func, arg } = t {
        let lf = layout(*func, b0.len() as int, c);
        let la = layout(*arg, after_func.len() as int, c);
        lemma_layout_len(*func, b0.len() as int, c);
        assert(layout(t, b0.len() as int, c) == lf + la + seq![b.last()]);
        assert(b =~= b0 + (lf + la + seq![b.last()]));
    }
}

/// Laying out an abstraction is putting the node down, then laying out its body.
proof fn lemma_layout_abs(
    b0: Seq<DebruijnNode>,
    x: DebruijnNode,
    after_body: Seq<DebruijnNode>,
    b: Seq<DebruijnNode>,
    t: Debruijn,
    c: Seq<BackingIndex>,
)
    requires
        t matches Debruijn::Abstraction { body } && {
            let lo = b0.len() as int;
            &&& after_body == b0.push(x) + layout(*body, lo + 1, c.push(BackingIndex(lo as usize)))
            &&& b == after_body.update(lo, layout(t, lo, c)[0])
        },
    ensures
        b == b0 + layout(t, b0.len() as int, c),
{
    if let Debruijn::Abstraction { body } = t {
        let lo = b0.len() as int;
        let lb = layout(*body, lo + 1, c.push(BackingIndex(lo as usize)));
        assert(layout(t, lo, c) == seq![layout(t, lo, c)[0]] + lb);
        assert(b =~= b0 + layout(t, lo, c));
    }
}

/// Lays `term` out at the end of `tree` under the abstractions of `chain` and returns the
/// position of its root node.
#[verifier::rlimit(100)]
#[verifier::spinoff_prover]
fn flatten_into(tree: &mut FlatTree, chain: &mut Vec<BackingIndex>, term: &Debruijn) -> (r: BackingIndex)
    requires
        term.indices_positive(),
        old(tree).backing@.len() + term.size() <= usize::MAX,
        chain_below(old(chain)@, old(tree).backing@.len() as int),
    ensures
        final(chain)@ == old(chain)@,
        final(tree).root == old(tree).root,
        final(tree).backing@.len() == old(tree).backing@.len() + term.size(),
        final(tree).backing@.subrange(0, old(tree).backing@.len() as int) == old(tree).backing@,
        within(
            final(tree).backing@,
            r.0 as int,
            old(tree).backing@.len() as int,
            final(tree).backing@.len() as int,
            term.size(),
        ),
        node_view(final(tree).backing@, r.0 as int, old(chain)@, term.size()) == Some(*term),
        is_tree(final(tree).backing@, r.0 as int, term.size()),
        usage_error(final(tree).backing@, r.0 as int, term.size()) is None,
        final(tree).backing@ == old(tree).backing@ + layout(*term, old(tree).backing@.len() as int, old(chain)@),
        r.0 as int == layout_root(*term, old(tree).backing@.len() as int),
    decreases term,
{
    let ghost lo = tree.backing@.len() as int;
    let ghost c0 = chain@;
    match term {
        Debruijn::Index(index) => {
            let len = chain.len();
            let binding = if *index > len {
                Binding::Free(*index - len)
            } else {
                proof {
                    lemma_chain_pos_increasing(c0, (len - *index) as int);
                }
                Binding::Bound(chain[len - *index])
            };
            let r = tree.alloc_node(DebruijnNode::Index(binding));
            proof {
                assert(tree.backing@.subrange(0, lo) =~= old(tree).backing@);
                assert(tree.backing@ =~= old(tree).backing@ + layout(*term, lo, c0));
            }
            r
        },
        Debruijn::Abstraction { body } => {
            let usage = compute_usage(body);
            let backing_index = tree.alloc_none();
            chain.push(backing_index);
            let ghost before_body = tree.backing@;
            let body_index = flatten_into(tree, chain, body);
            chain.pop();
            let ghost after_body = tree.backing@;
            tree.set_node(backing_index, DebruijnNode::Abstraction(Abstraction { body: body_index, usage }));
            proof {
                assert(chain@ =~= c0);
                let hi = tree.backing@.len() as int;
                assert(after_body.subrange(0, lo + 1) == before_body);
                assert forall|k: int| lo + 1 <= k < hi implies tree.backing@[k] == after_body[k] by {}
                lemma_within_frame(after_body, tree.backing@, body_index.0 as int, lo + 1, hi, body.size(), c0.push(backing_index));
                lemma_within_widen(tree.backing@, body_index.0 as int, lo + 1, hi, body.size(), lo, hi, body.size());
                lemma_within_widen(after_body, body_index.0 as int, lo + 1, hi, body.size(), 0, hi, body.size());
                lemma_within_reach(after_body, body_index.0 as int, lo + 1, hi, body.size());
                assert forall|k: int| reach(after_body, body_index.0 as int, body.size()).contains(k) implies 0 <= k < tree.backing@.len() && skel(#[trigger] tree.backing@[k]) == skel(after_body[k]) by {}
                lemma_reach_frame(after_body, tree.backing@, body_index.0 as int, body.size());
                assert(tree.backing@.subrange(0, lo) =~= old(tree).backing@) by {
                    assert forall|k: int| 0 <= k < lo implies tree.backing@[k] == old(tree).backing@[k] by {
                        assert(after_body.subrange(0, lo + 1)[k] == before_body[k]);
                    }
                }
                let b = tree.backing@;
                let bi = body_index.0 as int;
                let c1 = c0.push(backing_index);
                crate::usage_facts::lemma_chain_len(c0, lo);
                assert(node_view(b, bi, c1, body.size()) == Some(**body));
                assert forall|j: int, k: int| 0 <= j < k < c1.len() implies c1[j].0 < c1[k].0 by {
                    if k < c0.len() {
                        assert(c1[k] == c0[k]);
                    }
                    assert(c1[j] == c0[j]);
                }
                lemma_chain_pos_increasing(c1, c0.len() as int);
                crate::usage_facts::lemma_count_occurrences(b, bi, c1, c0.len() as int, body.size());
                crate::usage_facts::lemma_usage_frame(after_body, b, bi, lo + 1, hi, body.size());
                assert(b[lo] == DebruijnNode::Abstraction(Abstraction { body: body_index, usage }));
                assert(backing_index == BackingIndex(lo as usize));
                lemma_layout_len(**body, lo + 1, c1);
                lemma_layout_abs(old(tree).backing@, before_body[lo], after_body, b, *term, c0);
            }
            backing_index
        },
        Debruijn::Application { func, arg } => {
            let func_index = flatten_into(tree, chain, func);
            let ghost after_func = tree.backing@;
            let ghost mid = tree.backing@.len() as int;
            let arg_index = flatten_into(tree, chain, arg);
            let ghost after_arg = tree.backing@;
            let r = tree.alloc_node(DebruijnNode::Application(Application { func: func_index, arg: arg_index }));
            proof {
                let hi = tree.backing@.len() as int;
                assert forall|k: int| lo <= k < mid implies after_arg[k] == after_func[k] by {
                    assert(after_arg.subrange(0, mid)[k] == after_func[k]);
                }
                lemma_within_frame(after_func, after_arg, func_index.0 as int, lo, mid, func.size(), c0);
                lemma_within_frame(after_func, tree.backing@, func_index.0 as int, lo, mid, func.size(), c0);
                assert forall|k: int| mid <= k < hi - 1 implies tree.backing@[k] == after_arg[k] by {}
                lemma_within_frame(after_arg, tree.backing@, arg_index.0 as int, mid, hi - 1, arg.size(), c0);
                lemma_within_widen(tree.backing@, func_index.0 as int, lo, mid, func.size(), lo, hi, (term.size() - 1) as nat);
                lemma_within_widen(tree.backing@, arg_index.0 as int, mid, hi - 1, arg.size(), lo, hi, (term.size() - 1) as nat);
                lemma_view_fuel(tree.backing@, func_index.0 as int, c0, func.size(), (term.size() - 1) as nat);
                lemma_view_fuel(tree.backing@, arg_index.0 as int, c0, arg.size(), (term.size() - 1) as nat);
                let bf = tree.backing@;
                lemma_within_widen(after_func, func_index.0 as int, lo, mid, func.size(), 0, mid, func.size());
                lemma_within_reach(after_func, func_index.0 as int, lo, mid, func.size());
                assert forall|k: int| reach(after_func, func_index.0 as int, func.size()).contains(k) implies 0 <= k < bf.len() && skel(#[trigger] bf[k]) == skel(after_func[k]) by {
                    assert(after_arg.subrange(0, mid)[k] == after_func[k]);
                }
                lemma_reach_frame(after_func, bf, func_index.0 as int, func.size());
                lemma_tree_fuel(bf, func_index.0 as int, func.size(), (term.size() - 1) as nat);
                lemma_within_widen(after_arg, arg_index.0 as int, mid, hi - 1, arg.size(), 0, hi - 1, arg.size());
                lemma_within_reach(after_arg, arg_index.0 as int, mid, hi - 1, arg.size());
                assert forall|k: int| reach(after_arg, arg_index.0 as int, arg.size()).contains(k) implies 0 <= k < bf.len() && skel(#[trigger] bf[k]) == skel(after_arg[k]) by {}
                lemma_reach_frame(after_arg, bf, arg_index.0 as int, arg.size());
                lemma_tree_fuel(bf, arg_index.0 as int, arg.size(), (term.size() - 1) as nat);
                assert(reach(bf, func_index.0 as int, (term.size() - 1) as nat).disjoint(reach(bf, arg_index.0 as int, (term.size() - 1) as nat)));
                assert(tree.backing@.subrange(0, lo) =~= old(tree).backing@) by {
                    assert forall|k: int| 0 <= k < lo implies tree.backing@[k] == old(tree).backing@[k] by {
                        assert(after_func.subrange(0, lo)[k] == old(tree).backing@[k]);
                        assert(after_arg.subrange(0, mid)[k] == after_func[k]);
                    }
                }
                let fi = func_index.0 as int;
                let ai = arg_index.0 as int;
                assert forall|k: int| lo <= k < mid implies bf[k] == after_func[k] by {
                    assert(after_arg.subrange(0, mid)[k] == after_func[k]);
                }
                crate::usage_facts::lemma_usage_frame(after_func, bf, fi, lo, mid, func.size());
                crate::usage_facts::lemma_usage_frame(after_arg, bf, ai, mid, hi - 1, arg.size());
                lemma_within_widen(bf, fi, lo, mid, func.size(), 0, bf.len() as int, func.size());
                lemma_within_widen(bf, ai, mid, hi - 1, arg.size(), 0, bf.len() as int, arg.size());
                crate::usage_facts::lemma_usage_fuel(bf, fi, func.size(), (term.size() - 1) as nat);
                crate::usage_facts::lemma_usage_fuel(bf, ai, arg.size(), (term.size() - 1) as nat);
                lemma_layout_app(old(tree).backing@, after_func, after_arg, bf, *term, c0);
            }
            r
        },
    }
}

impl FlatTree {
    /// The flat layout of `term`.
    pub fn from_debruijn(term: &Debruijn) -> (t: FlatTree)
        requires
            term.indices_positive(),
            term.size() <= usize::MAX,
        ensures
            t.valid(),
            t.well_formed(),
            t.term() == *term,
            usage_error(t.backing@, t.root.0 as int, t.fuel()) is None,
            usage_error(t.backing@, t.root.0 as int, t.tree_fuel()) is None,
            t.backing@ == layout(*term, 0, Seq::empty()),
            t.root.0 as int == layout_root(*term, 0),
    {
        let mut tree = FlatTree::new();
        let mut chain: Vec<BackingIndex> = Vec::new();
        let root_index = flatten_into(&mut tree, &mut chain, term);
        tree.root = root_index;
        proof {
            assert(chain@ =~= Seq::<BackingIndex>::empty());
            assert(tree.backing@ =~= layout(*term, 0, Seq::empty()));
            assert(node_view(tree.backing@, tree.root.0 as int, Seq::empty(), term.size()) is Some);
            assert(is_tree(tree.backing@, tree.root.0 as int, term.size()));
            let f = tree.fuel();
            if f <= term.size() {
                lemma_view_fuel(tree.backing@, tree.root.0 as int, Seq::empty(), f, term.size());
            } else {
                lemma_view_fuel(tree.backing@, tree.root.0 as int, Seq::empty(), term.size(), f);
            }
            let b = tree.backing@;
            let r = tree.root.0 as int;
            let n = term.size();
            lemma_view_counts(b, r, Seq::empty(), n);
            lemma_view_counts(b, r, Seq::empty(), f);
            if f <= n {
                crate::usage_facts::lemma_usage_fuel(b, r, f, n);
            } else {
                crate::usage_facts::lemma_usage_fuel(b, r, n, f);
            }
            let g = tree.tree_fuel();
            assert(is_tree(b, r, g) && node_view(b, r, Seq::empty(), g) is Some);
            lemma_view_counts(b, r, Seq::empty(), g);
            if g <= n {
                crate::usage_facts::lemma_usage_fuel(b, r, g, n);
            } else {
                crate::usage_facts::lemma_usage_fuel(b, r, n, g);
            }
        }
        tree
    }
}

/// The first position of `b` in `chain`, found by a scan from the front.
fn find_in_chain(chain: &Vec<BackingIndex>, b: BackingIndex) -> (p: usize)
    requires
        chain_pos(chain@, b) >= 0,
    ensures
        p as int == chain_pos(chain@, b),
        p < chain@.len(),
        chain@[p as int] == b,
{
    let mut p: usize = 0;
    proof {
        lemma_chain_pos_found(chain@, b);
    }
    while p < chain.len() && chain[p] != b
        invariant
            p <= chain@.len(),
            forall|j: int| 0 <= j < p ==> chain@[j] != b,
        decreases chain@.len() - p,
    {
        p = p + 1;
    }
    proof {
        lemma_chain_pos(chain@, b, p as int);
    }
    p
}

/// Every abstraction reached from `i` (under the abstractions of `chain`) within `fuel` steps
/// records as its usage the number of times its variable occurs in the term of its body.
pub open spec fn usages_right(b: Seq<DebruijnNode>, i: int, chain: Seq<BackingIndex>, fuel: nat) -> bool
    decreases fuel,
{
    if fuel == 0 || i < 0 || i >= b.len() {
        true
    } else {
        match b[i] {
            DebruijnNode::Index(_) => true,
            DebruijnNode::Abstraction(abs) => {
                let c2 = chain.push(BackingIndex(i as usize));
                &&& abs.usage == occurrences(node_view(b, abs.body.0 as int, c2, (fuel - 1) as nat)->0, 1)
                &&& usages_right(b, abs.body.0 as int, c2, (fuel - 1) as nat)
            },
            DebruijnNode::Application(app) => usages_right(b, app.func.0 as int, chain, (fuel - 1) as nat)
                && usages_right(b, app.arg.0 as int, chain, (fuel - 1) as nat),
        }
    }
}

/// Copies the term at `old_index` of `old_tree` (under the abstractions `old_chain`) to the end
/// of `new_tree` (under the corresponding abstractions `new_chain`).
#[verifier::rlimit(100)]
#[verifier::spinoff_prover]
fn normalize_at(
    old_tree: &FlatTree,
    new_tree: &mut FlatTree,
    old_chain: &mut Vec<BackingIndex>,
    new_chain: &mut Vec<BackingIndex>,
    old_index: BackingIndex,
    Ghost(fuel): Ghost<nat>,
) -> (r: BackingIndex)
    requires
        node_view(old_tree.backing@, old_index.0 as int, old(old_chain)@, fuel) is Some,
        old(new_tree).backing@.len() + node_view(
            old_tree.backing@,
            old_index.0 as int,
            old(old_chain)@,
            fuel,
        )->0.size() <= usize::MAX,
        old(old_chain)@.len() == old(new_chain)@.len(),
        chain_below(old(new_chain)@, old(new_tree).backing@.len() as int),
    ensures
        ({
            let t = node_view(old_tree.backing@, old_index.0 as int, old(old_chain)@, fuel)->0;
            &&& final(old_chain)@ == old(old_chain)@
            &&& final(new_chain)@ == old(new_chain)@
            &&& final(new_tree).root == old(new_tree).root
            &&& final(new_tree).backing@.len() == old(new_tree).backing@.len() + t.size()
            &&& final(new_tree).backing@.subrange(0, old(new_tree).backing@.len() as int)
                == old(new_tree).backing@
            &&& within(
                final(new_tree).backing@,
                r.0 as int,
                old(new_tree).backing@.len() as int,
                final(new_tree).backing@.len() as int,
                t.size(),
            )
            &&& node_view(final(new_tree).backing@, r.0 as int, old(new_chain)@, t.size()) == Some(t)
            &&& is_tree(final(new_tree).backing@, r.0 as int, t.size())
            &&& usages_right(old_tree.backing@, old_index.0 as int, old(old_chain)@, fuel) ==> usage_error(
                final(new_tree).backing@,
                r.0 as int,
                t.size(),
            ) is None
            &&& r.0 as int == layout_root(t, old(new_tree).backing@.len() as int)
            &&& usages_right(old_tree.backing@, old_index.0 as int, old(old_chain)@, fuel) ==> final(new_tree).backing@
                == old(new_tree).backing@ + layout(t, old(new_tree).backing@.len() as int, old(new_chain)@)
        }),
    decreases fuel,
{
    let ghost lo = new_tree.backing@.len() as int;
    let ghost oc0 = old_chain@;
    let ghost nc0 = new_chain@;
    let ghost t = node_view(old_tree.backing@, old_index.0 as int, old_chain@, fuel)->0;
    match old_tree.node(old_index) {
        DebruijnNode::Index(binding) => {
            let binding = match binding {
                Binding::Free(_) => binding,
                Binding::Bound(backing_index) => {
                    let p = find_in_chain(old_chain, backing_index);
                    proof {
                        lemma_chain_pos_increasing(nc0, p as int);
                    }
                    Binding::Bound(new_chain[p])
                },
            };
            let r = new_tree.alloc_node(DebruijnNode::Index(binding));
            proof {
                assert(new_tree.backing@.subrange(0, lo) =~= old(new_tree).backing@);
                crate::usage_facts::lemma_chain_len(nc0, lo);
                assert(layout(t, lo, nc0) == seq![DebruijnNode::Index(binding)]) by {
                    if let Binding::Bound(x) = old_tree.backing@[old_index.0 as int]->Index_0 {
                        let p = chain_pos(oc0, x);
                        assert(t == Debruijn::Index((oc0.len() - p) as usize));
                        assert(((oc0.len() - p) as usize) as int == oc0.len() - p);
                        assert(binding == Binding::Bound(nc0[p]));
                    }
                }
                assert(new_tree.backing@ =~= old(new_tree).backing@ + layout(t, lo, nc0));
            }
            r
        },
        DebruijnNode::Abstraction(abstraction) => {
            let ghost tb = node_view(
                old_tree.backing@,
                abstraction.body.0 as int,
                oc0.push(old_index),
                (fuel - 1) as nat,
            )->0;
            let new_abstraction_index = new_tree.alloc_none();
            old_chain.push(old_index);
            new_chain.push(new_abstraction_index);
            let ghost before_body = new_tree.backing@;
            let new_body = normalize_at(
                old_tree,
                new_tree,
                old_chain,
                new_chain,
                abstraction.body,
                Ghost((fuel - 1) as nat),
            );
            old_chain.pop();
            new_chain.pop();
            let ghost after_body = new_tree.backing@;
            new_tree.set_node(
                new_abstraction_index,
                DebruijnNode::Abstraction(Abstraction { body: new_body, usage: abstraction.usage }),
            );
            proof {
                assert(old_chain@ =~= oc0);
                assert(new_chain@ =~= nc0);
                let hi = new_tree.backing@.len() as int;
                assert(after_body.subrange(0, lo + 1) == before_body);
                assert forall|k: int| lo + 1 <= k < hi implies new_tree.backing@[k] == after_body[k] by {}
                lemma_within_frame(after_body, new_tree.backing@, new_body.0 as int, lo + 1, hi, tb.size(), nc0.push(new_abstraction_index));
                lemma_within_widen(new_tree.backing@, new_body.0 as int, lo + 1, hi, tb.size(), lo, hi, tb.size());
                assert(new_tree.backing@.subrange(0, lo) =~= old(new_tree).backing@) by {
                    assert forall|k: int| 0 <= k < lo implies new_tree.backing@[k] == old(new_tree).backing@[k] by {
                        assert(after_body.subrange(0, lo + 1)[k] == before_body[k]);
                    }
                }
                let b = new_tree.backing@;
                let bi = new_body.0 as int;
                let f = tb.size();
                lemma_within_widen(after_body, bi, lo + 1, hi, f, 0, hi, f);
                lemma_within_reach(after_body, bi, lo + 1, hi, f);
                assert forall|k: int| reach(after_body, bi, f).contains(k) implies 0 <= k < b.len() && skel(#[trigger] b[k]) == skel(after_body[k]) by {}
                lemma_reach_frame(after_body, b, bi, f);
                assert(new_abstraction_index == BackingIndex(lo as usize));
                assert(b[lo] == DebruijnNode::Abstraction(Abstraction { body: new_body, usage: abstraction.usage }));
                if usages_right(old_tree.backing@, old_index.0 as int, oc0, fuel) {
                    let nc1 = nc0.push(new_abstraction_index);
                    crate::usage_facts::lemma_chain_len(nc0, lo);
                    assert forall|j: int, k: int| 0 <= j < k < nc1.len() implies nc1[j].0 < nc1[k].0 by {
                        if k < nc0.len() {
                            assert(nc1[k] == nc0[k]);
                        }
                        assert(nc1[j] == nc0[j]);
                    }
                    lemma_chain_pos_increasing(nc1, nc0.len() as int);
                    assert(node_view(b, bi, nc1, f) == Some(tb));
                    crate::usage_facts::lemma_count_occurrences(b, bi, nc1, nc0.len() as int, f);
                    crate::usage_facts::lemma_usage_frame(after_body, b, bi, lo + 1, hi, f);
                    assert(old_index == BackingIndex(old_index.0 as int as usize));
                    lemma_layout_len(tb, lo + 1, nc1);
                    lemma_layout_abs(old(new_tree).backing@, before_body[lo], after_body, b, t, nc0);
                }
            }
            new_abstraction_index
        },
        DebruijnNode::Application(application) => {
            let ghost tf = node_view(old_tree.backing@, application.func.0 as int, oc0, (fuel - 1) as nat)->0;
            let ghost ta = node_view(old_tree.backing@, application.arg.0 as int, oc0, (fuel - 1) as nat)->0;
            let new_func = normalize_at(old_tree, new_tree, old_chain, new_chain, application.func, Ghost((fuel - 1) as nat));
            let ghost after_func = new_tree.backing@;
            let ghost mid = new_tree.backing@.len() as int;
            let new_arg = normalize_at(old_tree, new_tree, old_chain, new_chain, application.arg, Ghost((fuel - 1) as nat));
            let ghost after_arg = new_tree.backing@;
            let r = new_tree.alloc_node(DebruijnNode::Application(Application { func: new_func, arg: new_arg }));
            proof {
                let hi = new_tree.backing@.len() as int;
                assert forall|k: int| lo <= k < mid implies after_arg[k] == after_func[k] by {
                    assert(after_arg.subrange(0, mid)[k] == after_func[k]);
                }
                lemma_within_frame(after_func, after_arg, new_func.0 as int, lo, mid, tf.size(), nc0);
                lemma_within_frame(after_func, new_tree.backing@, new_func.0 as int, lo, mid, tf.size(), nc0);
                assert forall|k: int| mid <= k < hi - 1 implies new_tree.backing@[k] == after_arg[k] by {}
                lemma_within_frame(after_arg, new_tree.backing@, new_arg.0 as int, mid, hi - 1, ta.size(), nc0);
                lemma_within_widen(new_tree.backing@, new_func.0 as int, lo, mid, tf.size(), lo, hi, (t.size() - 1) as nat);
                lemma_within_widen(new_tree.backing@, new_arg.0 as int, mid, hi - 1, ta.size(), lo, hi, (t.size() - 1) as nat);
                lemma_view_fuel(new_tree.backing@, new_func.0 as int, nc0, tf.size(), (t.size() - 1) as nat);
                lemma_view_fuel(new_tree.backing@, new_arg.0 as int, nc0, ta.size(), (t.size() - 1) as nat);
                assert(new_tree.backing@.subrange(0, lo) =~= old(new_tree).backing@) by {
                    assert forall|k: int| 0 <= k < lo implies new_tree.backing@[k] == old(new_tree).backing@[k] by {
                        assert(after_func.subrange(0, lo)[k] == old(new_tree).backing@[k]);
                        assert(after_arg.subrange(0, mid)[k] == after_func[k]);
                    }
                }
                let bf = new_tree.backing@;
                let fi = new_func.0 as int;
                let ai = new_arg.0 as int;
                let f1 = (t.size() - 1) as nat;
                lemma_within_widen(after_func, fi, lo, mid, tf.size(), 0, mid, tf.size());
                lemma_within_reach(after_func, fi, lo, mid, tf.size());
                assert forall|k: int| reach(after_func, fi, tf.size()).contains(k) implies 0 <= k < bf.len() && skel(#[trigger] bf[k]) == skel(after_func[k]) by {
                    assert(after_arg.subrange(0, mid)[k] == after_func[k]);
                }
                lemma_reach_frame(after_func, bf, fi, tf.size());
                lemma_tree_fuel(bf, fi, tf.size(), f1);
                lemma_within_widen(after_arg, ai, mid, hi - 1, ta.size(), 0, hi - 1, ta.size());
                lemma_within_reach(after_arg, ai, mid, hi - 1, ta.size());
                assert forall|k: int| reach(after_arg, ai, ta.size()).contains(k) implies 0 <= k < bf.len() && skel(#[trigger] bf[k]) == skel(after_arg[k]) by {}
                lemma_reach_frame(after_arg, bf, ai, ta.size());
                lemma_tree_fuel(bf, ai, ta.size(), f1);
                assert(reach(bf, fi, f1).disjoint(reach(bf, ai, f1)));
                if usages_right(old_tree.backing@, old_index.0 as int, oc0, fuel) {
                    assert forall|k: int| lo <= k < mid implies bf[k] == after_func[k] by {
                        assert(after_arg.subrange(0, mid)[k] == after_func[k]);
                    }
                    crate::usage_facts::lemma_usage_frame(after_func, bf, fi, lo, mid, tf.size());
                    crate::usage_facts::lemma_usage_frame(after_arg, bf, ai, mid, hi - 1, ta.size());
                    lemma_within_widen(bf, fi, lo, mid, tf.size(), 0, bf.len() as int, tf.size());
                    lemma_within_widen(bf, ai, mid, hi - 1, ta.size(), 0, bf.len() as int, ta.size());
                    crate::usage_facts::lemma_usage_fuel(bf, fi, tf.size(), f1);
                    crate::usage_facts::lemma_usage_fuel(bf, ai, ta.size(), f1);
                    lemma_layout_app(old(new_tree).backing@, after_func, after_arg, bf, t, nc0);
                }
            }
            r
        },
    }
}

impl FlatTree {
    /// Two fuels that both unfold the tree give the same term.
    pub proof fn lemma_term_fuel(&self, f: nat)
        requires
            node_view(self.backing@, self.root.0 as int, Seq::empty(), f) is Some,
        ensures
            self.valid(),
            node_view(self.backing@, self.root.0 as int, Seq::empty(), f) == Some(self.term()),
    {
        let g = self.fuel();
        if f <= g {
            lemma_view_fuel(self.backing@, self.root.0 as int, Seq::empty(), f, g);
        } else {
            lemma_view_fuel(self.backing@, self.root.0 as int, Seq::empty(), g, f);
        }
    }

    /// A copy of the tree that holds the same term with nothing else: its nodes are laid out
    /// from the root in preorder, and every node of the vector belongs to the term.
    pub fn normalized(&self) -> (t: FlatTree)
        requires
            self.valid(),
            self.term().size() <= usize::MAX,
        ensures
            t.valid(),
            t.well_formed(),
            t.term() == self.term(),
            t.backing@.len() == self.term().size(),
            t.root.0 as int == layout_root(self.term(), 0),
            self.well_formed() && usage_error(self.backing@, self.root.0 as int, self.fuel()) is None
                ==> t.backing@ == layout(self.term(), 0, Seq::empty()),
            self.well_formed() && usage_error(self.backing@, self.root.0 as int, self.fuel()) is None
                ==> usage_error(t.backing@, t.root.0 as int, t.fuel()) is None && usage_error(
                t.backing@,
                t.root.0 as int,
                t.tree_fuel(),
            ) is None,
    {
        let mut new_tree = FlatTree::new();
        let mut old_chain: Vec<BackingIndex> = Vec::new();
        let mut new_chain: Vec<BackingIndex> = Vec::new();
        proof {
            assert(old_chain@ =~= Seq::<BackingIndex>::empty());
            assert(new_chain@ =~= Seq::<BackingIndex>::empty());
        }
        let node_count = self.backing.len();
        let ghost old_fuel = self.term().size();
        proof {
            self.lemma_term_fuel(self.fuel());
            lemma_view_counts(self.backing@, self.root.0 as int, Seq::empty(), self.fuel());
            lemma_view_size(self.backing@, self.root.0 as int, Seq::empty(), self.fuel());
            self.lemma_term_fuel(old_fuel);
        }
        let root_node = normalize_at(self, &mut new_tree, &mut old_chain, &mut new_chain, self.root, Ghost(old_fuel));
        new_tree.root = root_node;
        proof {
            let n = self.term().size();
            new_tree.lemma_term_fuel(n);
            let b = new_tree.backing@;
            let r = new_tree.root.0 as int;
            assert(is_tree(b, r, n) && node_view(b, r, Seq::empty(), n) is Some);
            let b0 = self.backing@;
            let r0 = self.root.0 as int;
            if self.well_formed() && usage_error(b0, r0, self.fuel()) is None {
                let f0 = self.fuel();
                lemma_view_counts(b0, r0, Seq::empty(), f0);
                lemma_view_counts(b0, r0, Seq::empty(), old_fuel);
                if f0 <= old_fuel {
                    crate::usage_facts::lemma_usage_fuel(b0, r0, f0, old_fuel);
                } else {
                    crate::usage_facts::lemma_usage_fuel(b0, r0, old_fuel, f0);
                }
                assert(node_count == b0.len());
                let g0 = self.tree_fuel();
                lemma_view_counts(b0, r0, Seq::empty(), g0);
                if old_fuel <= g0 {
                    crate::usage_facts::lemma_tree_less_fuel(b0, r0, old_fuel, g0);
                } else {
                    lemma_tree_fuel(b0, r0, g0, old_fuel);
                }
                crate::usage_facts::lemma_usages_right(b0, r0, Seq::empty(), old_fuel);
                assert(b =~= layout(self.term(), 0, Seq::empty()));
                let f = new_tree.fuel();
                let g = new_tree.tree_fuel();
                lemma_view_counts(b, r, Seq::empty(), n);
                lemma_view_counts(b, r, Seq::empty(), f);
                lemma_view_counts(b, r, Seq::empty(), g);
                if f <= n {
                    crate::usage_facts::lemma_usage_fuel(b, r, f, n);
                } else {
                    crate::usage_facts::lemma_usage_fuel(b, r, n, f);
                }
                if g <= n {
                    crate::usage_facts::lemma_usage_fuel(b, r, g, n);
                } else {
                    crate::usage_facts::lemma_usage_fuel(b, r, n, g);
                }
            }
        }
        new_tree
    }
}

/// The number of variables bound to `target` reached from `i` within `fuel` steps.
pub open spec fn bound_count(b: Seq<DebruijnNode>, target: BackingIndex, i: int, fuel: nat) -> nat
    decreases fuel,
{
    if fuel == 0 || i < 0 || i >= b.len() {
        0
    } else {
        match b[i] {
            DebruijnNode::Index(binding) => if binding == Binding::Bound(target) {
                1
            } else {
                0
            },
            DebruijnNode::Abstraction(abs) => bound_count(b, target, abs.body.0 as int, (fuel - 1) as nat),
            DebruijnNode::Application(app) => bound_count(b, target, app.func.0 as int, (fuel - 1) as nat)
                + bound_count(b, target, app.arg.0 as int, (fuel - 1) as nat),
        }
    }
}

/// The largest number of abstractions nested along a path from `i` within `fuel` steps.
pub open spec fn nest(b: Seq<DebruijnNode>, i: int, fuel: nat) -> nat
    decreases fuel,
{
    if fuel == 0 || i < 0 || i >= b.len() {
        0
    } else {
        match b[i] {
            DebruijnNode::Index(_) => 0,
            DebruijnNode::Abstraction(abs) => 1 + nest(b, abs.body.0 as int, (fuel - 1) as nat),
            DebruijnNode::Application(app) => {
                let f = nest(b, app.func.0 as int, (fuel - 1) as nat);
                let a = nest(b, app.arg.0 as int, (fuel - 1) as nat);
                if f >= a {
                    f
                } else {
                    a
                }
            },
        }
    }
}

/// The number of nodes reached from `i` within `fuel` steps, counted along every path.
pub open spec fn reach_size(b: Seq<DebruijnNode>, i: int, fuel: nat) -> nat
    decreases fuel,
{
    if fuel == 0 || i < 0 || i >= b.len() {
        0
    } else {
        match b[i] {
            DebruijnNode::Index(_) => 1,
            DebruijnNode::Abstraction(abs) => 1 + reach_size(b, abs.body.0 as int, (fuel - 1) as nat),
            DebruijnNode::Application(app) => 1 + reach_size(b, app.func.0 as int, (fuel - 1) as nat)
                + reach_size(b, app.arg.0 as int, (fuel - 1) as nat),
        }
    }
}

/// Whether the node at `i` is an application of an abstraction.
pub open spec fn redex_at(b: Seq<DebruijnNode>, i: int) -> bool {
    &&& 0 <= i < b.len()
    &&& b[i] matches DebruijnNode::Application(app)
    &&& 0 <= app.func.0 < b.len()
    &&& b[app.func.0 as int] is Abstraction
}

/// Whether some node reached from `i` within `fuel` steps is a redex.
pub open spec fn has_redex(b: Seq<DebruijnNode>, i: int, fuel: nat) -> bool
    decreases fuel,
{
    if fuel == 0 || i < 0 || i >= b.len() {
        false
    } else {
        match b[i] {
            DebruijnNode::Index(_) => false,
            DebruijnNode::Abstraction(abs) => has_redex(b, abs.body.0 as int, (fuel - 1) as nat),
            DebruijnNode::Application(app) => redex_at(b, i) || has_redex(
                b,
                app.func.0 as int,
                (fuel - 1) as nat,
            ) || has_redex(b, app.arg.0 as int, (fuel - 1) as nat),
        }
    }
}

/// More fuel does not change what is counted from a node whose subtree is within the vector.
pub proof fn lemma_within_fuel(b: Seq<DebruijnNode>, i: int, f1: nat, f2: nat)
    requires
        within(b, i, 0, b.len() as int, f1),
        f1 <= f2,
    ensures
        within(b, i, 0, b.len() as int, f2),
        nest(b, i, f2) == nest(b, i, f1),
        reach_size(b, i, f2) == reach_size(b, i, f1),
        has_redex(b, i, f2) == has_redex(b, i, f1),
        forall|t: BackingIndex| #[trigger] bound_count(b, t, i, f2) == bound_count(b, t, i, f1),
    decreases f1,
{
    match b[i] {
        DebruijnNode::Index(_) => {},
        DebruijnNode::Abstraction(abs) => {
            lemma_within_fuel(b, abs.body.0 as int, (f1 - 1) as nat, (f2 - 1) as nat);
            assert forall|t: BackingIndex| #[trigger] bound_count(b, t, i, f2) == bound_count(b, t, i, f1) by {
                assert(bound_count(b, t, abs.body.0 as int, (f2 - 1) as nat) == bound_count(b, t, abs.body.0 as int, (f1 - 1) as nat));
            }
        },
        DebruijnNode::Application(app) => {
            lemma_within_fuel(b, app.func.0 as int, (f1 - 1) as nat, (f2 - 1) as nat);
            lemma_within_fuel(b, app.arg.0 as int, (f1 - 1) as nat, (f2 - 1) as nat);
            assert forall|t: BackingIndex| #[trigger] bound_count(b, t, i, f2) == bound_count(b, t, i, f1) by {
                assert(bound_count(b, t, app.func.0 as int, (f2 - 1) as nat) == bound_count(b, t, app.func.0 as int, (f1 - 1) as nat));
                assert(bound_count(b, t, app.arg.0 as int, (f2 - 1) as nat) == bound_count(b, t, app.arg.0 as int, (f1 - 1) as nat));
            }
        },
    }
}

/// What the structural counts are on a node that has a view.
pub proof fn lemma_view_counts(b: Seq<DebruijnNode>, i: int, chain: Seq<BackingIndex>, fuel: nat)
    requires
        node_view(b, i, chain, fuel) is Some,
    ensures
        within(b, i, 0, b.len() as int, fuel),
        nest(b, i, fuel) == node_view(b, i, chain, fuel)->0.abs_depth(),
        reach_size(b, i, fuel) == node_view(b, i, chain, fuel)->0.size(),
        has_redex(b, i, fuel) == !crate::reference::is_normal(node_view(b, i, chain, fuel)->0),
        forall|t: BackingIndex| #[trigger] bound_count(b, t, i, fuel) <= reach_size(b, i, fuel),
    decreases fuel,
{
    match b[i] {
        DebruijnNode::Index(_) => {},
        DebruijnNode::Abstraction(abs) => {
            lemma_view_counts(b, abs.body.0 as int, chain.push(BackingIndex(i as usize)), (fuel - 1) as nat);
            assert forall|t: BackingIndex| #[trigger] bound_count(b, t, i, fuel) <= reach_size(b, i, fuel) by {
                assert(bound_count(b, t, abs.body.0 as int, (fuel - 1) as nat) <= reach_size(b, abs.body.0 as int, (fuel - 1) as nat));
            }
        },
        DebruijnNode::Application(app) => {
            lemma_view_counts(b, app.func.0 as int, chain, (fuel - 1) as nat);
            lemma_view_counts(b, app.arg.0 as int, chain, (fuel - 1) as nat);
            assert forall|t: BackingIndex| #[trigger] bound_count(b, t, i, fuel) <= reach_size(b, i, fuel) by {
                assert(bound_count(b, t, app.func.0 as int, (fuel - 1) as nat) <= reach_size(b, app.func.0 as int, (fuel - 1) as nat));
                assert(bound_count(b, t, app.arg.0 as int, (fuel - 1) as nat) <= reach_size(b, app.arg.0 as int, (fuel - 1) as nat));
            }
            let f = node_view(b, app.func.0 as int, chain, (fuel - 1) as nat)->0;
            assert(redex_at(b, i) == (f is Abstraction));
        },
    }
}

/// The subtree at `i` is finite.
pub open spec fn finite_from(b: Seq<DebruijnNode>, i: int) -> bool {
    exists|f: nat| #[trigger] within(b, i, 0, b.len() as int, f)
}

/// Enough fuel to reach the whole of a finite subtree.
pub open spec fn finite_fuel(b: Seq<DebruijnNode>, i: int) -> nat {
    choose|f: nat| #[trigger] within(b, i, 0, b.len() as int, f)
}

/// The number of variables bound to the abstraction at `abs` in its body.
pub open spec fn flat_usage(b: Seq<DebruijnNode>, abs: BackingIndex) -> nat {
    let body = b[abs.0 as int]->Abstraction_0.body.0 as int;
    bound_count(b, abs, body, finite_fuel(b, body))
}

fn count_bound(tree: &FlatTree, abstraction_index: BackingIndex, index: BackingIndex, Ghost(fuel): Ghost<nat>) -> (r: usize)
    requires
        within(tree.backing@, index.0 as int, 0, tree.backing@.len() as int, fuel),
        bound_count(tree.backing@, abstraction_index, index.0 as int, fuel) <= usize::MAX,
    ensures
        r == bound_count(tree.backing@, abstraction_index, index.0 as int, fuel),
    decreases fuel,
{
    match tree.node(index) {
        DebruijnNode::Index(binding) => {
            if binding.is_bound_to(abstraction_index) {
                1
            } else {
                0
            }
        },
        DebruijnNode::Abstraction(abstraction) => count_bound(tree, abstraction_index, abstraction.body, Ghost((fuel - 1) as nat)),
        DebruijnNode::Application(application) => {
            count_bound(tree, abstraction_index, application.func, Ghost((fuel - 1) as nat)) + count_bound(tree, abstraction_index, application.arg, Ghost((fuel - 1) as nat))
        },
    }
}

/// The number of variables bound to the abstraction at `abstraction_index` in its body.
pub fn compute_usage_flat(tree: &FlatTree, abstraction_index: BackingIndex) -> (r: usize)
    requires
        abstraction_index.0 < tree.backing@.len(),
        tree.backing@[abstraction_index.0 as int] is Abstraction,
        finite_from(tree.backing@, tree.backing@[abstraction_index.0 as int]->Abstraction_0.body.0 as int),
        flat_usage(tree.backing@, abstraction_index) <= usize::MAX,
    ensures
        r == flat_usage(tree.backing@, abstraction_index),
{
    let abstraction = tree.get_abs(abstraction_index);
    count_bound(tree, abstraction_index, abstraction.body, Ghost(finite_fuel(tree.backing@, abstraction.body.0 as int)))
}

impl Binding {
    /// Whether the binding names the abstraction at `backing_index`.
    fn is_bound_to(&self, backing_index: BackingIndex) -> (r: bool)
        ensures
            r == (*self == Binding::Bound(backing_index)),
    {
        match self {
            Binding::Bound(b) => *b == backing_index,
            Binding::Free(_) => false,
        }
    }
}

impl FlatTree {
    /// The abstraction at `term`.
    fn get_abs(&self, term: BackingIndex) -> (a: Abstraction)
        requires
            term.0 < self.backing@.len(),
            self.backing@[term.0 as int] is Abstraction,
        ensures
            self.backing@[term.0 as int] == DebruijnNode::Abstraction(a),
    {
        match self.node(term) {
            DebruijnNode::Abstraction(abs) => abs,
            _ => {
                proof {
                    assert(false);
                }
                Abstraction { body: BackingIndex(0), usage: 0 }
            },
        }
    }

    /// The application at `term`.
    fn get_app(&self, term: BackingIndex) -> (a: Application)
        requires
            term.0 < self.backing@.len(),
            self.backing@[term.0 as int] is Application,
        ensures
            self.backing@[term.0 as int] == DebruijnNode::Application(a),
    {
        match self.node(term) {
            DebruijnNode::Application(app) => app,
            _ => {
                proof {
                    assert(false);
                }
                Application { func: BackingIndex(0), arg: BackingIndex(0) }
            },
        }
    }
}

/// A variable is counted at most once per node.
pub proof fn lemma_bound_count_le(b: Seq<DebruijnNode>, t: BackingIndex, i: int, fuel: nat)
    ensures
        bound_count(b, t, i, fuel) <= reach_size(b, i, fuel),
    decreases fuel,
{
    if fuel > 0 && 0 <= i < b.len() {
        match b[i] {
            DebruijnNode::Index(_) => {},
            DebruijnNode::Abstraction(abs) => {
                lemma_bound_count_le(b, t, abs.body.0 as int, (fuel - 1) as nat);
            },
            DebruijnNode::Application(app) => {
                lemma_bound_count_le(b, t, app.func.0 as int, (fuel - 1) as nat);
                lemma_bound_count_le(b, t, app.arg.0 as int, (fuel - 1) as nat);
            },
        }
    }
}

/// The first abstraction, in preorder from `i`, whose recorded usage differs from the number of
/// its variables in its body: its position, the recorded usage and the counted one.
pub open spec fn usage_error(b: Seq<DebruijnNode>, i: int, fuel: nat) -> Option<(BackingIndex, usize, usize)>
    decreases fuel,
{
    if fuel == 0 || i < 0 || i >= b.len() {
        None
    } else {
        match b[i] {
            DebruijnNode::Index(_) => None,
            DebruijnNode::Abstraction(abs) => {
                let expected = bound_count(b, BackingIndex(i as usize), abs.body.0 as int, (fuel - 1) as nat);
                if abs.usage != expected {
                    Some((BackingIndex(i as usize), abs.usage, expected as usize))
                } else {
                    usage_error(b, abs.body.0 as int, (fuel - 1) as nat)
                }
            },
            DebruijnNode::Application(app) => match usage_error(b, app.func.0 as int, (fuel - 1) as nat) {
                Some(e) => Some(e),
                None => usage_error(b, app.arg.0 as int, (fuel - 1) as nat),
            },
        }
    }
}

fn check_usage_at(tree: &FlatTree, index: BackingIndex, Ghost(fuel): Ghost<nat>) -> (r: Result<(), (BackingIndex, usize, usize)>)
    requires
        within(tree.backing@, index.0 as int, 0, tree.backing@.len() as int, fuel),
        reach_size(tree.backing@, index.0 as int, fuel) <= usize::MAX,
    ensures
        r == match usage_error(tree.backing@, index.0 as int, fuel) {
            None => Ok::<(), (BackingIndex, usize, usize)>(()),
            Some(e) => Err(e),
        },
    decreases fuel,
{
    let ghost b = tree.backing@;
    match tree.node(index) {
        DebruijnNode::Index(_) => Ok(()),
        DebruijnNode::Abstraction(abstraction) => {
            let ghost body = abstraction.body.0 as int;
            proof {
                let ff = finite_fuel(b, body);
                assert(within(b, body, 0, b.len() as int, (fuel - 1) as nat));
                assert(finite_from(b, body));
                if ff <= fuel - 1 {
                    lemma_within_fuel(b, body, ff, (fuel - 1) as nat);
                } else {
                    lemma_within_fuel(b, body, (fuel - 1) as nat, ff);
                }
                lemma_bound_count_le(b, index, body, (fuel - 1) as nat);
            }
            let expected = compute_usage_flat(tree, index);
            let actual = abstraction.usage;
            if actual != expected {
                return Err((index, actual, expected));
            }
            check_usage_at(tree, abstraction.body, Ghost((fuel - 1) as nat))
        },
        DebruijnNode::Application(application) => {
            match check_usage_at(tree, application.func, Ghost((fuel - 1) as nat)) {
                Err(e) => Err(e),
                Ok(()) => check_usage_at(tree, application.arg, Ghost((fuel - 1) as nat)),
            }
        },
    }
}

impl FlatTree {
    /// Checks the usage recorded in every abstraction of the term against the number of its
    /// variables in its body; the first abstraction in preorder where they differ is returned
    /// with the recorded usage and the counted one.
    pub fn check_usage(&self) -> (r: Result<(), (BackingIndex, usize, usize)>)
        requires
            self.valid(),
            self.term().size() <= usize::MAX,
        ensures
            r == match usage_error(self.backing@, self.root.0 as int, self.fuel()) {
                None => Ok::<(), (BackingIndex, usize, usize)>(()),
                Some(e) => Err(e),
            },
    {
        proof {
            lemma_view_counts(self.backing@, self.root.0 as int, Seq::empty(), self.fuel());
        }
        check_usage_at(self, self.root, Ghost(self.fuel()))
    }
}

impl EdgeWithParent {
    /// The node the edge comes from, if any.
    pub open spec fn parent_spec(self) -> Option<BackingIndex> {
        match self {
            EdgeWithParent::IntoRoot => None,
            EdgeWithParent::AbsToBody(abs) => Some(abs),
            EdgeWithParent::AppToFunc(app) => Some(app),
            EdgeWithParent::AppToArg(app) => Some(app),
        }
    }

    /// The node the edge comes from; `None` for the edge into the root.
    pub fn backing_index(&self) -> (r: Option<BackingIndex>)
        ensures
            r == self.parent_spec(),
    {
        match self {
            EdgeWithParent::IntoRoot => None,
            EdgeWithParent::AbsToBody(abs) => Some(*abs),
            EdgeWithParent::AppToFunc(app) => Some(*app),
            EdgeWithParent::AppToArg(app) => Some(*app),
        }
    }
}

impl DoubleEndedEdge {
    /// The edge into the root of `tree`.
    pub fn root(tree: &FlatTree) -> (e: DoubleEndedEdge)
        ensures
            e == (DoubleEndedEdge { edge_w_parent: EdgeWithParent::IntoRoot, child: tree.root }),
    {
        DoubleEndedEdge { edge_w_parent: EdgeWithParent::IntoRoot, child: tree.root }
    }

    /// The node the edge comes from; `None` for the edge into the root.
    pub fn parent_index(&self) -> (r: Option<BackingIndex>)
        ensures
            r == self.edge_w_parent.parent_spec(),
    {
        self.edge_w_parent.backing_index()
    }
}

impl Abstraction {
    /// The edge from this abstraction, at `abs_index`, to its body.
    pub fn abs_to_body(&self, abs_index: BackingIndex) -> (e: DoubleEndedEdge)
        ensures
            e == (DoubleEndedEdge { child: self.body, edge_w_parent: EdgeWithParent::AbsToBody(abs_index) }),
    {
        DoubleEndedEdge { child: self.body, edge_w_parent: EdgeWithParent::AbsToBody(abs_index) }
    }
}

impl Application {
    /// The edge from this application, at `app_index`, to its function.
    pub fn func(&self, app_index: BackingIndex) -> (e: DoubleEndedEdge)
        ensures
            e == (DoubleEndedEdge { child: self.func, edge_w_parent: EdgeWithParent::AppToFunc(app_index) }),
    {
        DoubleEndedEdge { child: self.func, edge_w_parent: EdgeWithParent::AppToFunc(app_index) }
    }

    /// The edge from this application, at `app_index`, to its argument.
    pub fn arg(&self, app_index: BackingIndex) -> (e: DoubleEndedEdge)
        ensures
            e == (DoubleEndedEdge { child: self.arg, edge_w_parent: EdgeWithParent::AppToArg(app_index) }),
    {
        DoubleEndedEdge { child: self.arg, edge_w_parent: EdgeWithParent::AppToArg(app_index) }
    }
}

impl DebruijnNode {
    /// A variable node.
    pub fn idx(binding: Binding) -> (n: DebruijnNode)
        ensures
            n == DebruijnNode::Index(binding),
    {
        DebruijnNode::Index(binding)
    }

    /// An abstraction node.
    pub fn abs(body: BackingIndex, usage: usize) -> (n: DebruijnNode)
        ensures
            n == DebruijnNode::Abstraction(Abstraction { body, usage }),
    {
        DebruijnNode::Abstraction(Abstraction { body, usage })
    }

    /// An application node.
    pub fn app(func: BackingIndex, arg: BackingIndex) -> (n: DebruijnNode)
        ensures
            n == DebruijnNode::Application(Application { func, arg }),
    {
        DebruijnNode::Application(Application { func, arg })
    }
}

/// The path of edges from the root to a node, with the abstraction-to-body edges among them.
#[derive(Debug)]
pub struct ParentChain {
    pub abstractions: Vec<DoubleEndedEdge>,
    pub full_chain: Vec<DoubleEndedEdge>,
}

/// The abstraction-to-body edges of a path, in order.
pub open spec fn abs_edges(s: Seq<DoubleEndedEdge>) -> Seq<DoubleEndedEdge>
    decreases s.len(),
{
    if s.len() == 0 {
        Seq::empty()
    } else if s.last().edge_w_parent is AbsToBody {
        abs_edges(s.drop_last()).push(s.last())
    } else {
        abs_edges(s.drop_last())
    }
}

impl ParentChain {
    /// The abstractions recorded are the abstraction-to-body edges of the path.
    pub open spec fn consistent(&self) -> bool {
        self.abstractions@ == abs_edges(self.full_chain@)
    }

    /// The path to the root of `tree`: the edge into the root alone.
    pub fn new(tree: &FlatTree) -> (c: ParentChain)
        ensures
            c.consistent(),
            c.abstractions@ == Seq::<DoubleEndedEdge>::empty(),
            c.full_chain@ == seq![DoubleEndedEdge { edge_w_parent: EdgeWithParent::IntoRoot, child: tree.root }],
    {
        let mut full_chain: Vec<DoubleEndedEdge> = Vec::new();
        full_chain.push(DoubleEndedEdge::root(tree));
        proof {
            assert(full_chain@ =~= seq![DoubleEndedEdge { edge_w_parent: EdgeWithParent::IntoRoot, child: tree.root }]);
        }
        proof {
            assert(full_chain@.drop_last() =~= Seq::<DoubleEndedEdge>::empty());
            assert(abs_edges(full_chain@) =~= Seq::<DoubleEndedEdge>::empty()) by {
                reveal_with_fuel(abs_edges, 2);
            }
        }
        ParentChain { abstractions: Vec::new(), full_chain }
    }

    /// Extends the path by `edge`, which must leave the node the path ends at.
    pub fn push(&mut self, edge: DoubleEndedEdge)
        requires
            old(self).full_chain@.len() > 0,
            edge.edge_w_parent.parent_spec() == Some(old(self).full_chain@.last().child),
        ensures
            final(self).full_chain@ == old(self).full_chain@.push(edge),
            final(self).abstractions@ == if edge.edge_w_parent is AbsToBody {
                old(self).abstractions@.push(edge)
            } else {
                old(self).abstractions@
            },
            old(self).consistent() ==> final(self).consistent(),
    {
        proof {
            assert(old(self).full_chain@.push(edge).drop_last() =~= old(self).full_chain@);
        }
        let last_edge = self.full_chain[self.full_chain.len() - 1];
        let last_edge_child = last_edge.child;
        let this_edge_parent = edge.parent_index();
        proof {
            assert(this_edge_parent == Some(last_edge_child));
        }
        if let EdgeWithParent::AbsToBody(_) = edge.edge_w_parent {
            self.abstractions.push(edge);
        }
        self.full_chain.push(edge);
    }

    /// Removes the last edge, `edge`, from the path.
    pub fn pop(&mut self, edge: DoubleEndedEdge)
        ensures
            final(self).full_chain@ == if old(self).full_chain@.len() > 0 {
                old(self).full_chain@.drop_last()
            } else {
                old(self).full_chain@
            },
            final(self).abstractions@ == if edge.edge_w_parent is AbsToBody && old(self).abstractions@.len() > 0 {
                old(self).abstractions@.drop_last()
            } else {
                old(self).abstractions@
            },
            old(self).consistent() && old(self).full_chain@.len() > 0 && edge == old(self).full_chain@.last()
                ==> final(self).consistent(),
    {
        proof {
            let s0 = old(self).full_chain@;
            if s0.len() > 0 && edge == s0.last() && old(self).consistent() {
                if edge.edge_w_parent is AbsToBody {
                    assert(abs_edges(s0) == abs_edges(s0.drop_last()).push(s0.last()));
                    assert(abs_edges(s0).drop_last() =~= abs_edges(s0.drop_last()));
                } else {
                    assert(abs_edges(s0) == abs_edges(s0.drop_last()));
                }
            }
        }
        if let EdgeWithParent::AbsToBody(_) = edge.edge_w_parent {
            self.abstractions.pop();
        }
        self.full_chain.pop();
    }

    /// The number of abstractions on the path.
    pub fn debruijn_depth(&self) -> (r: usize)
        ensures
            r == self.abstractions@.len(),
            self.consistent() ==> r == abs_edges(self.full_chain@).len(),
    {
        self.abstractions.len()
    }
}

/// An application of an abstraction, found in a tree.
#[derive(Debug, Clone, Copy, PartialEq, Eq, Structural)]
pub struct RedexMut {
    /// The number of abstractions above the application.
    pub debruijn_depth: usize,
    /// The edge that leads to the application.
    pub parent_to_app: EdgeWithParent,
    /// The application.
    pub app_index: BackingIndex,
    /// The abstraction applied.
    pub func_index: BackingIndex,
    /// The body of the abstraction.
    pub body_index: BackingIndex,
    /// The argument.
    pub arg_index: BackingIndex,
    /// The usage recorded in the abstraction.
    pub body_usage: usize,
}

/// The redex at `app_index` as `try_get` finds it, if the node is one.
pub open spec fn redex_spec(b: Seq<DebruijnNode>, debruijn_depth: usize, parent_to_app: EdgeWithParent, app_index: BackingIndex) -> Option<RedexMut> {
    if redex_at(b, app_index.0 as int) {
        let app = b[app_index.0 as int]->Application_0;
        let abs = b[app.func.0 as int]->Abstraction_0;
        Some(RedexMut {
            debruijn_depth,
            parent_to_app,
            app_index,
            func_index: app.func,
            body_index: abs.body,
            arg_index: app.arg,
            body_usage: abs.usage,
        })
    } else {
        None
    }
}

impl RedexMut {
    /// Whether the node at `term` is an application of an abstraction.
    pub fn is_redex(tree: &FlatTree, term: BackingIndex) -> (r: bool)
        requires
            term.0 < tree.backing@.len(),
            tree.backing@[term.0 as int] matches DebruijnNode::Application(app) ==> app.func.0 < tree.backing@.len(),
        ensures
            r == redex_at(tree.backing@, term.0 as int),
    {
        match tree.node(term) {
            DebruijnNode::Application(app) => match tree.node(app.func) {
                DebruijnNode::Abstraction(_) => true,
                _ => false,
            },
            _ => false,
        }
    }

    /// The redex at `app_index`, reached by `parent_to_app` under `debruijn_depth` abstractions,
    /// or `None` when the node is not an application of an abstraction.
    pub fn try_get(
        tree: &FlatTree,
        debruijn_depth: usize,
        parent_to_app: EdgeWithParent,
        app_index: BackingIndex,
    ) -> (r: Option<RedexMut>)
        requires
            app_index.0 < tree.backing@.len(),
            tree.backing@[app_index.0 as int] matches DebruijnNode::Application(app) ==> app.func.0 < tree.backing@.len(),
        ensures
            r == redex_spec(tree.backing@, debruijn_depth, parent_to_app, app_index),
    {
        match tree.node(app_index) {
            DebruijnNode::Application(app) => match tree.node(app.func) {
                DebruijnNode::Abstraction(abs) => {
                    let redex = RedexMut {
                        debruijn_depth,
                        parent_to_app,
                        app_index,
                        func_index: app.func,
                        body_index: abs.body,
                        arg_index: app.arg,
                        body_usage: abs.usage,
                    };
                    Some(redex)
                },
                _ => None,
            },
            _ => None,
        }
    }
}

/// The redexes reached from `i`, in preorder with functions before arguments; `edge` leads to
/// `i` and `depth` abstractions lie above it.
pub open spec fn redexes_spec(b: Seq<DebruijnNode>, i: int, edge: EdgeWithParent, depth: nat, fuel: nat) -> Seq<RedexMut>
    decreases fuel,
{
    if fuel == 0 || i < 0 || i >= b.len() {
        Seq::empty()
    } else {
        match b[i] {
            DebruijnNode::Index(_) => Seq::empty(),
            DebruijnNode::Abstraction(abs) => redexes_spec(
                b,
                abs.body.0 as int,
                EdgeWithParent::AbsToBody(BackingIndex(i as usize)),
                depth + 1,
                (fuel - 1) as nat,
            ),
            DebruijnNode::Application(app) => {
                let here = match redex_spec(b, depth as usize, edge, BackingIndex(i as usize)) {
                    Some(r) => seq![r],
                    None => Seq::empty(),
                };
                here + redexes_spec(
                    b,
                    app.func.0 as int,
                    EdgeWithParent::AppToFunc(BackingIndex(i as usize)),
                    depth,
                    (fuel - 1) as nat,
                ) + redexes_spec(
                    b,
                    app.arg.0 as int,
                    EdgeWithParent::AppToArg(BackingIndex(i as usize)),
                    depth,
                    (fuel - 1) as nat,
                )
            },
        }
    }
}

fn get_redexes_at(
    tree: &FlatTree,
    index: BackingIndex,
    parent_to_current: EdgeWithParent,
    debruijn_depth: usize,
    redexes: &mut Vec<RedexMut>,
    Ghost(fuel): Ghost<nat>,
)
    requires
        within(tree.backing@, index.0 as int, 0, tree.backing@.len() as int, fuel),
        debruijn_depth + nest(tree.backing@, index.0 as int, fuel) <= usize::MAX,
    ensures
        final(redexes)@ == old(redexes)@ + redexes_spec(
            tree.backing@,
            index.0 as int,
            parent_to_current,
            debruijn_depth as nat,
            fuel,
        ),
    decreases fuel,
{
    let ghost b = tree.backing@;
    match tree.node(index) {
        DebruijnNode::Index(_) => {
            proof {
                assert(redexes@ =~= old(redexes)@ + Seq::<RedexMut>::empty());
            }
        },
        DebruijnNode::Abstraction(abstraction) => {
            get_redexes_at(
                tree,
                abstraction.body,
                EdgeWithParent::AbsToBody(index),
                debruijn_depth + 1,
                redexes,
                Ghost((fuel - 1) as nat),
            );
        },
        DebruijnNode::Application(application) => {
            let ghost r0 = redexes@;
            proof {
                assert(within(b, application.func.0 as int, 0, b.len() as int, (fuel - 1) as nat));
            }
            if let Some(redex) = RedexMut::try_get(tree, debruijn_depth, parent_to_current, index) {
                redexes.push(redex);
            }
            let ghost r1 = redexes@;
            get_redexes_at(
                tree,
                application.func,
                EdgeWithParent::AppToFunc(index),
                debruijn_depth,
                redexes,
                Ghost((fuel - 1) as nat),
            );
            get_redexes_at(
                tree,
                application.arg,
                EdgeWithParent::AppToArg(index),
                debruijn_depth,
                redexes,
                Ghost((fuel - 1) as nat),
            );
            proof {
                let here = match redex_spec(b, debruijn_depth, parent_to_current, index) {
                    Some(r) => seq![r],
                    None => Seq::<RedexMut>::empty(),
                };
                assert(r1 =~= r0 + here);
                assert(redexes@ =~= r0 + (here + redexes_spec(b, application.func.0 as int, EdgeWithParent::AppToFunc(index), debruijn_depth as nat, (fuel - 1) as nat) + redexes_spec(b, application.arg.0 as int, EdgeWithParent::AppToArg(index), debruijn_depth as nat, (fuel - 1) as nat)));
            }
        },
    }
}

impl FlatTree {
    /// Every redex of the term, in preorder with functions before arguments.
    pub fn get_redexes(&self) -> (r: Vec<RedexMut>)
        requires
            self.valid(),
            self.term().abs_depth() <= usize::MAX,
        ensures
            r@ == redexes_spec(self.backing@, self.root.0 as int, EdgeWithParent::IntoRoot, 0, self.fuel()),
            crate::redex_order::app_positions(r@) == crate::redex_order::visit_order(
                self.backing@,
                self.root.0 as int,
                self.fuel(),
            ).filter(|x: int| redex_at(self.backing@, x)),
            self.well_formed() ==> (r@.len() > 0 <==> !crate::reference::is_normal(self.term())),
            self.well_formed() && r@.len() > 0 && crate::reference::step_ok(self.term()) ==> crate::reference::step(
                self.term(),
            ) == Some(self.reduced(r@[0])),
    {
        proof {
            lemma_view_counts(self.backing@, self.root.0 as int, Seq::empty(), self.fuel());
            if self.well_formed() {
                crate::redex_order::lemma_first_redex_is_step(*self);
            }
            crate::redex_order::lemma_get_redexes_order(*self);
        }
        let mut redexes: Vec<RedexMut> = Vec::new();
        get_redexes_at(self, self.root, EdgeWithParent::IntoRoot, 0, &mut redexes, Ghost(self.fuel()));
        proof {
            assert(redexes@ =~= redexes_spec(self.backing@, self.root.0 as int, EdgeWithParent::IntoRoot, 0, self.fuel()));
        }
        redexes
    }
}

/// The outcome of one step of a walk.
pub enum WalkResult {
    /// Nothing is left to visit.
    StackIsEmpty,
    /// The node visited is no redex.
    Nothing,
    /// The node visited is this redex.
    Found(RedexMut),
}

/// A preorder walk over a tree, functions before arguments, as a stack of the nodes still to
/// visit with the edge that leads to each and the number of abstractions above it.
pub struct WalkContext {
    pub stack: Vec<(BackingIndex, EdgeWithParent, usize)>,
}

impl WalkContext {
    /// A walk that starts at the root of `tree`.
    pub fn new(tree: &FlatTree) -> (w: WalkContext)
        ensures
            w.stack@ == seq![(tree.root, EdgeWithParent::IntoRoot, 0usize)],
    {
        let mut stack: Vec<(BackingIndex, EdgeWithParent, usize)> = Vec::new();
        stack.push((tree.root, EdgeWithParent::IntoRoot, 0));
        proof {
            assert(stack@ =~= seq![(tree.root, EdgeWithParent::IntoRoot, 0usize)]);
        }
        WalkContext { stack }
    }

    /// Visits the next node: its children are put on the stack (the function last, so that it
    /// comes first), and an application of an abstraction is reported.
    pub fn walk_one(&mut self, tree: &FlatTree) -> (r: WalkResult)
        requires
            old(self).stack@.len() > 0 ==> ({
                let (i, _e, d) = old(self).stack@.last();
                &&& i.0 < tree.backing@.len()
                &&& tree.backing@[i.0 as int] matches DebruijnNode::Application(app) ==> app.func.0 < tree.backing@.len()
                &&& tree.backing@[i.0 as int] is Abstraction ==> d < usize::MAX
            }),
        ensures
            old(self).stack@.len() == 0 ==> r is StackIsEmpty && final(self).stack@ == old(self).stack@,
            old(self).stack@.len() > 0 ==> ({
                let (i, e, d) = old(self).stack@.last();
                let rest = old(self).stack@.drop_last();
                match tree.backing@[i.0 as int] {
                    DebruijnNode::Index(_) => r is Nothing && final(self).stack@ == rest,
                    DebruijnNode::Abstraction(abs) => r is Nothing && final(self).stack@ == rest.push(
                        (abs.body, EdgeWithParent::AbsToBody(i), (d + 1) as usize),
                    ),
                    DebruijnNode::Application(app) => {
                        &&& final(self).stack@ == rest.push((app.arg, EdgeWithParent::AppToArg(i), d)).push(
                            (app.func, EdgeWithParent::AppToFunc(i), d),
                        )
                        &&& match redex_spec(tree.backing@, d, e, i) {
                            Some(x) => r == WalkResult::Found(x),
                            None => r is Nothing,
                        }
                    },
                }
            }),
    {
        if let Some((index, parent_to_current, depth)) = self.stack.pop() {
            match tree.node(index) {
                DebruijnNode::Index(_) => WalkResult::Nothing,
                DebruijnNode::Abstraction(abstraction) => {
                    self.stack.push((abstraction.body, EdgeWithParent::AbsToBody(index), depth + 1));
                    WalkResult::Nothing
                },
                DebruijnNode::Application(application) => {
                    self.stack.push((application.arg, EdgeWithParent::AppToArg(index), depth));
                    self.stack.push((application.func, EdgeWithParent::AppToFunc(index), depth));
                    if let Some(redex) = RedexMut::try_get(tree, depth, parent_to_current, index) {
                        WalkResult::Found(redex)
                    } else {
                        WalkResult::Nothing
                    }
                },
            }
        } else {
            WalkResult::StackIsEmpty
        }
    }
}

/// Whether a node of the stack reaches a redex.
pub open spec fn stack_has_redex(b: Seq<DebruijnNode>, s: Seq<(BackingIndex, EdgeWithParent, usize)>, fuel: nat) -> bool
    decreases s.len(),
{
    if s.len() == 0 {
        false
    } else {
        stack_has_redex(b, s.drop_last(), fuel) || has_redex(b, s.last().0.0 as int, fuel)
    }
}

/// The number of nodes still to visit from the stack.
pub open spec fn stack_size(b: Seq<DebruijnNode>, s: Seq<(BackingIndex, EdgeWithParent, usize)>, fuel: nat) -> nat
    decreases s.len(),
{
    if s.len() == 0 {
        0
    } else {
        stack_size(b, s.drop_last(), fuel) + reach_size(b, s.last().0.0 as int, fuel)
    }
}

/// Every node of the stack lies in the vector with its subtree, and its abstractions can be
/// counted from its depth.
pub open spec fn stack_ok(b: Seq<DebruijnNode>, s: Seq<(BackingIndex, EdgeWithParent, usize)>, fuel: nat) -> bool {
    forall|k: int| 0 <= k < s.len() ==> within(b, #[trigger] s[k].0.0 as int, 0, b.len() as int, fuel)
        && s[k].2 + nest(b, s[k].0.0 as int, fuel) <= usize::MAX
}

impl FlatTree {
    /// Whether the term is in beta normal form: no application of an abstraction occurs in it.
    pub fn is_bnf(&self) -> (r: bool)
        requires
            self.valid(),
            self.term().abs_depth() <= usize::MAX,
        ensures
            r == crate::reference::is_normal(self.term()),
    {
        let ghost b = self.backing@;
        let ghost fuel = self.fuel();
        proof {
            lemma_view_counts(b, self.root.0 as int, Seq::empty(), fuel);
        }
        let mut ctx = WalkContext::new(self);
        proof {
            assert(ctx.stack@.drop_last() =~= Seq::<(BackingIndex, EdgeWithParent, usize)>::empty());
            assert(stack_has_redex(b, Seq::<(BackingIndex, EdgeWithParent, usize)>::empty(), fuel) == false);
            assert(stack_has_redex(b, ctx.stack@, fuel) == has_redex(b, self.root.0 as int, fuel));
            assert(stack_ok(b, ctx.stack@, fuel)) by {
                assert forall|k: int| 0 <= k < ctx.stack@.len() implies within(b, #[trigger] ctx.stack@[k].0.0 as int, 0, b.len() as int, fuel)
                    && ctx.stack@[k].2 + nest(b, ctx.stack@[k].0.0 as int, fuel) <= usize::MAX by {
                    assert(ctx.stack@[k] == (self.root, EdgeWithParent::IntoRoot, 0usize));
                }
            }
        }
        loop
            invariant
                b == self.backing@,
                stack_ok(b, ctx.stack@, fuel),
                has_redex(b, self.root.0 as int, fuel) == stack_has_redex(b, ctx.stack@, fuel),
                has_redex(b, self.root.0 as int, fuel) == !crate::reference::is_normal(self.term()),
            decreases stack_size(b, ctx.stack@, fuel),
        {
            let ghost old_stack = ctx.stack@;
            proof {
                if old_stack.len() > 0 {
                    let (i, _e, d) = old_stack.last();
                    assert(within(b, old_stack[old_stack.len() - 1].0.0 as int, 0, b.len() as int, fuel));
                    match b[i.0 as int] {
                        DebruijnNode::Application(app) => {
                            assert(within(b, app.func.0 as int, 0, b.len() as int, (fuel - 1) as nat));
                        },
                        _ => {},
                    }
                }
            }
            match ctx.walk_one(self) {
                WalkResult::StackIsEmpty => {
                    return true;
                },
                WalkResult::Found(_) => {
                    return false;
                },
                WalkResult::Nothing => {
                    proof {
                        let (i, _e, d) = old_stack.last();
                        let rest = old_stack.drop_last();
                        let ii = i.0 as int;
                        assert(within(b, old_stack[old_stack.len() - 1].0.0 as int, 0, b.len() as int, fuel));
                        assert(stack_ok(b, rest, fuel)) by {
                            assert forall|k: int| 0 <= k < rest.len() implies within(b, #[trigger] rest[k].0.0 as int, 0, b.len() as int, fuel)
                                && rest[k].2 + nest(b, rest[k].0.0 as int, fuel) <= usize::MAX by {
                                assert(rest[k] == old_stack[k]);
                            }
                        }
                        assert(stack_has_redex(b, old_stack, fuel) == (stack_has_redex(b, rest, fuel) || has_redex(b, ii, fuel)));
                        assert(stack_size(b, old_stack, fuel) == stack_size(b, rest, fuel) + reach_size(b, ii, fuel));
                        match b[ii] {
                            DebruijnNode::Index(_) => {
                                assert(ctx.stack@ == rest);
                            },
                            DebruijnNode::Abstraction(abs) => {
                                let c = abs.body.0 as int;
                                lemma_within_fuel(b, c, (fuel - 1) as nat, fuel);
                                let x = (abs.body, EdgeWithParent::AbsToBody(i), (d + 1) as usize);
                                assert(ctx.stack@ == rest.push(x));
                                assert(ctx.stack@.drop_last() =~= rest);
                                assert(stack_has_redex(b, ctx.stack@, fuel) == (stack_has_redex(b, rest, fuel) || has_redex(b, c, fuel)));
                                assert(stack_size(b, ctx.stack@, fuel) == stack_size(b, rest, fuel) + reach_size(b, c, fuel));
                                assert forall|k: int| 0 <= k < ctx.stack@.len() implies within(b, #[trigger] ctx.stack@[k].0.0 as int, 0, b.len() as int, fuel)
                                    && ctx.stack@[k].2 + nest(b, ctx.stack@[k].0.0 as int, fuel) <= usize::MAX by {
                                    if k < rest.len() {
                                        assert(ctx.stack@[k] == rest[k]);
                                    }
                                }
                            },
                            DebruijnNode::Application(app) => {
                                let f = app.func.0 as int;
                                let a = app.arg.0 as int;
                                lemma_within_fuel(b, f, (fuel - 1) as nat, fuel);
                                lemma_within_fuel(b, a, (fuel - 1) as nat, fuel);
                                let xa = (app.arg, EdgeWithParent::AppToArg(i), d);
                                let xf = (app.func, EdgeWithParent::AppToFunc(i), d);
                                let mid = rest.push(xa);
                                assert(ctx.stack@ == mid.push(xf));
                                assert(ctx.stack@.drop_last() =~= mid);
                                assert(mid.drop_last() =~= rest);
                                assert(!redex_at(b, ii));
                                assert(stack_has_redex(b, mid, fuel) == (stack_has_redex(b, rest, fuel) || has_redex(b, a, fuel)));
                                assert(stack_has_redex(b, ctx.stack@, fuel) == (stack_has_redex(b, mid, fuel) || has_redex(b, f, fuel)));
                                assert(stack_size(b, mid, fuel) == stack_size(b, rest, fuel) + reach_size(b, a, fuel));
                                assert(stack_size(b, ctx.stack@, fuel) == stack_size(b, mid, fuel) + reach_size(b, f, fuel));
                                assert forall|k: int| 0 <= k < ctx.stack@.len() implies within(b, #[trigger] ctx.stack@[k].0.0 as int, 0, b.len() as int, fuel)
                                    && ctx.stack@[k].2 + nest(b, ctx.stack@[k].0.0 as int, fuel) <= usize::MAX by {
                                    if k < rest.len() {
                                        assert(ctx.stack@[k] == rest[k]);
                                    }
                                }
                            },
                        }
                    }
                },
            }
        }
    }
}

/// The node without its recorded usage, which no view reads.
pub open spec fn skel(n: DebruijnNode) -> DebruijnNode {
    match n {
        DebruijnNode::Abstraction(abs) => DebruijnNode::Abstraction(Abstraction { body: abs.body, usage: 0 }),
        _ => n,
    }
}

/// The positions reached from `i` within `fuel` steps.
pub open spec fn reach(b: Seq<DebruijnNode>, i: int, fuel: nat) -> Set<int>
    decreases fuel,
{
    if fuel == 0 || i < 0 || i >= b.len() {
        Set::empty()
    } else {
        match b[i] {
            DebruijnNode::Index(_) => Set::empty().insert(i),
            DebruijnNode::Abstraction(abs) => reach(b, abs.body.0 as int, (fuel - 1) as nat).insert(i),
            DebruijnNode::Application(app) => reach(b, app.func.0 as int, (fuel - 1) as nat).union(
                reach(b, app.arg.0 as int, (fuel - 1) as nat),
            ).insert(i),
        }
    }
}

/// The nodes reached from `i` form a tree: no node is reached twice, along the same path or
/// along two paths.
pub open spec fn is_tree(b: Seq<DebruijnNode>, i: int, fuel: nat) -> bool
    decreases fuel,
{
    &&& fuel > 0
    &&& 0 <= i < b.len()
    &&& match b[i] {
        DebruijnNode::Index(_) => true,
        DebruijnNode::Abstraction(abs) => {
            let r = reach(b, abs.body.0 as int, (fuel - 1) as nat);
            is_tree(b, abs.body.0 as int, (fuel - 1) as nat) && !r.contains(i)
        },
        DebruijnNode::Application(app) => {
            let rf = reach(b, app.func.0 as int, (fuel - 1) as nat);
            let ra = reach(b, app.arg.0 as int, (fuel - 1) as nat);
            &&& is_tree(b, app.func.0 as int, (fuel - 1) as nat)
            &&& is_tree(b, app.arg.0 as int, (fuel - 1) as nat)
            &&& rf.disjoint(ra)
            &&& !rf.contains(i)
            &&& !ra.contains(i)
        },
    }
}

/// The reached positions are in range, finite, and include `i` when it is in range.
pub proof fn lemma_reach_basics(b: Seq<DebruijnNode>, i: int, fuel: nat)
    ensures
        reach(b, i, fuel).finite(),
        forall|k: int| reach(b, i, fuel).contains(k) ==> 0 <= k < b.len(),
        fuel > 0 && 0 <= i < b.len() ==> reach(b, i, fuel).contains(i),
    decreases fuel,
{
    if fuel > 0 && 0 <= i < b.len() {
        match b[i] {
            DebruijnNode::Index(_) => {},
            DebruijnNode::Abstraction(abs) => {
                lemma_reach_basics(b, abs.body.0 as int, (fuel - 1) as nat);
            },
            DebruijnNode::Application(app) => {
                lemma_reach_basics(b, app.func.0 as int, (fuel - 1) as nat);
                lemma_reach_basics(b, app.arg.0 as int, (fuel - 1) as nat);
            },
        }
    }
}

/// A tree is within the vector.
pub proof fn lemma_tree_within(b: Seq<DebruijnNode>, i: int, fuel: nat)
    requires
        is_tree(b, i, fuel),
    ensures
        within(b, i, 0, b.len() as int, fuel),
    decreases fuel,
{
    match b[i] {
        DebruijnNode::Index(_) => {},
        DebruijnNode::Abstraction(abs) => {
            lemma_tree_within(b, abs.body.0 as int, (fuel - 1) as nat);
        },
        DebruijnNode::Application(app) => {
            lemma_tree_within(b, app.func.0 as int, (fuel - 1) as nat);
            lemma_tree_within(b, app.arg.0 as int, (fuel - 1) as nat);
        },
    }
}

/// What is read from `i` depends only on the nodes reached, without their usages.
pub proof fn lemma_reach_frame(b1: Seq<DebruijnNode>, b2: Seq<DebruijnNode>, i: int, fuel: nat)
    requires
        within(b1, i, 0, b1.len() as int, fuel),
        forall|k: int| reach(b1, i, fuel).contains(k) ==> 0 <= k < b2.len() && skel(#[trigger] b2[k]) == skel(b1[k]),
    ensures
        reach(b2, i, fuel) == reach(b1, i, fuel),
        is_tree(b2, i, fuel) == is_tree(b1, i, fuel),
        forall|c: Seq<BackingIndex>| #[trigger] node_view(b2, i, c, fuel) == node_view(b1, i, c, fuel),
        forall|t: BackingIndex| #[trigger] bound_count(b2, t, i, fuel) == bound_count(b1, t, i, fuel),
        reach_size(b2, i, fuel) == reach_size(b1, i, fuel),
        within(b2, i, 0, b2.len() as int, fuel),
    decreases fuel,
{
    lemma_reach_basics(b1, i, fuel);
    if fuel > 0 && 0 <= i < b1.len() {
        assert(skel(b2[i]) == skel(b1[i]));
        match b1[i] {
            DebruijnNode::Index(_) => {},
            DebruijnNode::Abstraction(abs) => {
                let c = abs.body.0 as int;
                lemma_reach_basics(b1, c, (fuel - 1) as nat);
                lemma_reach_frame(b1, b2, c, (fuel - 1) as nat);
                assert forall|ch: Seq<BackingIndex>| #[trigger] node_view(b2, i, ch, fuel) == node_view(b1, i, ch, fuel) by {
                    assert(node_view(b2, c, ch.push(BackingIndex(i as usize)), (fuel - 1) as nat) == node_view(b1, c, ch.push(BackingIndex(i as usize)), (fuel - 1) as nat));
                }
                assert forall|t: BackingIndex| #[trigger] bound_count(b2, t, i, fuel) == bound_count(b1, t, i, fuel) by {
                    assert(bound_count(b2, t, c, (fuel - 1) as nat) == bound_count(b1, t, c, (fuel - 1) as nat));
                }
            },
            DebruijnNode::Application(app) => {
                let f = app.func.0 as int;
                let a = app.arg.0 as int;
                lemma_reach_basics(b1, f, (fuel - 1) as nat);
                lemma_reach_basics(b1, a, (fuel - 1) as nat);
                lemma_reach_frame(b1, b2, f, (fuel - 1) as nat);
                lemma_reach_frame(b1, b2, a, (fuel - 1) as nat);
                assert forall|ch: Seq<BackingIndex>| #[trigger] node_view(b2, i, ch, fuel) == node_view(b1, i, ch, fuel) by {
                    assert(node_view(b2, f, ch, (fuel - 1) as nat) == node_view(b1, f, ch, (fuel - 1) as nat));
                    assert(node_view(b2, a, ch, (fuel - 1) as nat) == node_view(b1, a, ch, (fuel - 1) as nat));
                }
                assert forall|t: BackingIndex| #[trigger] bound_count(b2, t, i, fuel) == bound_count(b1, t, i, fuel) by {
                    assert(bound_count(b2, t, f, (fuel - 1) as nat) == bound_count(b1, t, f, (fuel - 1) as nat));
                    assert(bound_count(b2, t, a, (fuel - 1) as nat) == bound_count(b1, t, a, (fuel - 1) as nat));
                }
            },
        }
    }
}

/// The first position in a concatenation.
pub proof fn lemma_chain_pos_append(s: Seq<BackingIndex>, t: Seq<BackingIndex>, x: BackingIndex)
    ensures
        chain_pos(s + t, x) == if chain_pos(s, x) >= 0 {
            chain_pos(s, x)
        } else if chain_pos(t, x) >= 0 {
            s.len() + chain_pos(t, x)
        } else {
            -1
        },
    decreases s.len(),
{
    lemma_chain_pos_found(s, x);
    lemma_chain_pos_found(t, x);
    if s.len() == 0 {
        assert(s + t =~= t);
    } else {
        assert((s + t)[0] == s[0]);
        if s[0] != x {
            assert((s + t).drop_first() =~= s.drop_first() + t);
            lemma_chain_pos_append(s.drop_first(), t, x);
        }
    }
}

/// Every node reached from a subtree within a range lies in the range.
pub proof fn lemma_within_reach(b: Seq<DebruijnNode>, i: int, lo: int, hi: int, fuel: nat)
    requires
        within(b, i, lo, hi, fuel),
    ensures
        forall|k: int| #[trigger] reach(b, i, fuel).contains(k) ==> lo <= k < hi,
    decreases fuel,
{
    match b[i] {
        DebruijnNode::Index(_) => {},
        DebruijnNode::Abstraction(abs) => {
            lemma_within_reach(b, abs.body.0 as int, lo, hi, (fuel - 1) as nat);
            assert forall|k: int| #[trigger] reach(b, i, fuel).contains(k) implies lo <= k < hi by {
                if k != i {
                    assert(reach(b, abs.body.0 as int, (fuel - 1) as nat).contains(k));
                }
            }
        },
        DebruijnNode::Application(app) => {
            lemma_within_reach(b, app.func.0 as int, lo, hi, (fuel - 1) as nat);
            lemma_within_reach(b, app.arg.0 as int, lo, hi, (fuel - 1) as nat);
            assert forall|k: int| #[trigger] reach(b, i, fuel).contains(k) implies lo <= k < hi by {
                if k != i && !reach(b, app.func.0 as int, (fuel - 1) as nat).contains(k) {
                    assert(reach(b, app.arg.0 as int, (fuel - 1) as nat).contains(k));
                }
            }
        },
    }
}

/// Two index sequences without a common element.
pub open spec fn chains_disjoint(s: Seq<BackingIndex>, t: Seq<BackingIndex>) -> bool {
    forall|j: int, k: int| 0 <= j < s.len() && 0 <= k < t.len() ==> s[j] != t[k]
}

/// No element of `s` is a position in `r`.
pub open spec fn chain_avoids(s: Seq<BackingIndex>, r: Set<int>) -> bool {
    forall|j: int| 0 <= j < s.len() ==> !r.contains(#[trigger] s[j].0 as int)
}

/// Every element of `s` lies in `[lo, hi)`.
pub open spec fn chain_in(s: Seq<BackingIndex>, lo: int, hi: int) -> bool {
    forall|j: int| 0 <= j < s.len() ==> lo <= #[trigger] s[j].0 < hi
}

/// Appends a copy of the subtree at `old_node_index`, whose enclosing abstractions within the
/// part being copied are `old_chain`, and whose copies are `new_chain`.
fn clone_at(
    tree: &mut FlatTree,
    old_chain: &mut Vec<BackingIndex>,
    new_chain: &mut Vec<BackingIndex>,
    old_node_index: BackingIndex,
    Ghost(fuel): Ghost<nat>,
    Ghost(lo0): Ghost<int>,
    Ghost(k): Ghost<Seq<BackingIndex>>,
) -> (r: BackingIndex)
    requires
        is_tree(old(tree).backing@, old_node_index.0 as int, fuel),
        old(tree).backing@.len() + reach_size(old(tree).backing@, old_node_index.0 as int, fuel) <= usize::MAX,
        node_view(old(tree).backing@, old_node_index.0 as int, k + old(old_chain)@, fuel) is Some,
        old(old_chain)@.len() == old(new_chain)@.len(),
        0 <= lo0 <= old(tree).backing@.len(),
        forall|j: int, m: int| 0 <= j < m < old(new_chain)@.len() ==> old(new_chain)@[j].0 < old(new_chain)@[m].0,
        chain_in(old(new_chain)@, lo0, old(tree).backing@.len() as int),
        chain_in(old(old_chain)@, 0, lo0),
        chain_in(k, 0, lo0),
        chains_disjoint(k, old(old_chain)@),
        chain_avoids(k, reach(old(tree).backing@, old_node_index.0 as int, fuel)),
        forall|m: int| reach(old(tree).backing@, old_node_index.0 as int, fuel).contains(m) ==> m < lo0,
    ensures
        ({
            let b0 = old(tree).backing@;
            let b = final(tree).backing@;
            let lo = b0.len() as int;
            &&& final(old_chain)@ == old(old_chain)@
            &&& final(new_chain)@ == old(new_chain)@
            &&& final(tree).root == old(tree).root
            &&& b.len() == b0.len() + reach_size(b0, old_node_index.0 as int, fuel)
            &&& b.subrange(0, lo) == b0
            &&& within(b, r.0 as int, lo, b.len() as int, fuel)
            &&& is_tree(b, r.0 as int, fuel)
            &&& node_view(b, r.0 as int, k + old(new_chain)@, fuel) == node_view(b0, old_node_index.0 as int, k + old(old_chain)@, fuel)
        }),
    decreases fuel,
{
    let ghost b0 = tree.backing@;
    let ghost oc = old_chain@;
    let ghost nc = new_chain@;
    let ghost lo = b0.len() as int;
    let ghost i = old_node_index.0 as int;
    proof {
        lemma_reach_basics(b0, i, fuel);
    }
    match tree.node(old_node_index) {
        DebruijnNode::Index(binding) => {
            let binding = match binding {
                Binding::Free(_) => binding,
                Binding::Bound(backing_index) => {
                    let mut p: usize = 0;
                    while p < old_chain.len() && old_chain[p] != backing_index
                        invariant
                            p <= old_chain@.len(),
                            forall|j: int| 0 <= j < p ==> old_chain@[j] != backing_index,
                        decreases old_chain@.len() - p,
                    {
                        p = p + 1;
                    }
                    proof {
                        lemma_chain_pos(oc, backing_index, p as int);
                        lemma_chain_pos_append(k, oc, backing_index);
                        lemma_chain_pos_append(k, nc, backing_index);
                        lemma_chain_pos_found(k, backing_index);
                    }
                    if p < old_chain.len() {
                        proof {
                            let x = nc[p as int];
                            assert(forall|j: int| 0 <= j < p ==> nc[j] != x);
                            lemma_chain_pos(nc, x, p as int);
                            lemma_chain_pos_append(k, nc, x);
                            lemma_chain_pos_found(k, x);
                            if chain_pos(k, x) >= 0 {
                                assert(k[chain_pos(k, x)].0 < lo0);
                            }
                            if chain_pos(k, backing_index) >= 0 {
                                assert(k[chain_pos(k, backing_index)] != oc[p as int]);
                            }
                        }
                        Binding::Bound(new_chain[p])
                    } else {
                        proof {
                            if chain_pos(nc, backing_index) >= 0 {
                                lemma_chain_pos_found(nc, backing_index);
                                assert(nc[chain_pos(nc, backing_index)].0 >= lo0);
                                assert(k[chain_pos(k, backing_index)].0 < lo0);
                            }
                        }
                        binding
                    }
                },
            };
            let r = tree.alloc_node(DebruijnNode::Index(binding));
            proof {
                assert(tree.backing@.subrange(0, lo) =~= b0);
            }
            r
        },
        DebruijnNode::Abstraction(abstraction) => {
            let old_body_index = abstraction.body;
            let old_usage = abstraction.usage;
            let new_abstraction_index = tree.alloc_none();
            let ghost b1 = tree.backing@;
            old_chain.push(old_node_index);
            new_chain.push(new_abstraction_index);
            let ghost c = old_body_index.0 as int;
            proof {
                assert(b1.subrange(0, lo) =~= b0);
                assert forall|m: int| reach(b0, c, (fuel - 1) as nat).contains(m) implies 0 <= m < b1.len() && skel(#[trigger] b1[m]) == skel(b0[m]) by {
                    lemma_reach_basics(b0, c, (fuel - 1) as nat);
                    assert(b1[m] == b0[m]);
                }
                lemma_tree_within(b0, c, (fuel - 1) as nat);
                lemma_reach_frame(b0, b1, c, (fuel - 1) as nat);
                assert forall|m: int| #[trigger] reach(b1, c, (fuel - 1) as nat).contains(m) implies m < lo0 by {
                    assert(reach(b0, i, fuel).contains(m));
                }
                assert(k + old_chain@ =~= (k + oc).push(old_node_index));
                assert forall|j: int| 0 <= j < k.len() implies !reach(b1, c, (fuel - 1) as nat).contains(#[trigger] k[j].0 as int) by {
                    assert(!reach(b0, i, fuel).contains(k[j].0 as int));
                }
                assert(chains_disjoint(k, old_chain@)) by {
                    assert forall|j: int, m: int| 0 <= j < k.len() && 0 <= m < old_chain@.len() implies k[j] != old_chain@[m] by {
                        if m == oc.len() {
                            assert(!reach(b0, i, fuel).contains(k[j].0 as int));
                        } else {
                            assert(old_chain@[m] == oc[m]);
                        }
                    }
                }
                assert(chain_in(old_chain@, 0, lo0)) by {
                    assert forall|j: int| 0 <= j < old_chain@.len() implies 0 <= #[trigger] old_chain@[j].0 < lo0 by {
                        if j < oc.len() {
                            assert(old_chain@[j] == oc[j]);
                        }
                    }
                }
                assert(chain_in(new_chain@, lo0, b1.len() as int)) by {
                    assert forall|j: int| 0 <= j < new_chain@.len() implies lo0 <= #[trigger] new_chain@[j].0 < b1.len() by {
                        if j < nc.len() {
                            assert(new_chain@[j] == nc[j]);
                        }
                    }
                }
                assert forall|j: int, m: int| 0 <= j < m < new_chain@.len() implies new_chain@[j].0 < new_chain@[m].0 by {
                    if m < nc.len() {
                        assert(new_chain@[j] == nc[j]);
                        assert(new_chain@[m] == nc[m]);
                    } else {
                        assert(new_chain@[j] == nc[j]);
                    }
                }
            }
            let new_body = clone_at(tree, old_chain, new_chain, old_body_index, Ghost((fuel - 1) as nat), Ghost(lo0), Ghost(k));
            old_chain.pop();
            new_chain.pop();
            let ghost b2 = tree.backing@;
            tree.set_node(new_abstraction_index, DebruijnNode::abs(new_body, old_usage));
            proof {
                let b3 = tree.backing@;
                let hi = b3.len() as int;
                assert(old_chain@ =~= oc);
                assert(new_chain@ =~= nc);
                assert(b2.subrange(0, lo + 1) == b1);
                lemma_within_reach(b2, new_body.0 as int, lo + 1, hi, (fuel - 1) as nat);
                lemma_within_frame(b2, b3, new_body.0 as int, lo + 1, hi, (fuel - 1) as nat, k + nc.push(new_abstraction_index));
                assert forall|m: int| reach(b2, new_body.0 as int, (fuel - 1) as nat).contains(m) implies 0 <= m < b3.len() && skel(#[trigger] b3[m]) == skel(b2[m]) by {}
                lemma_tree_within(b2, new_body.0 as int, (fuel - 1) as nat);
                lemma_reach_frame(b2, b3, new_body.0 as int, (fuel - 1) as nat);
                lemma_within_widen(b3, new_body.0 as int, lo + 1, hi, (fuel - 1) as nat, lo, hi, (fuel - 1) as nat);
                assert(k + nc.push(new_abstraction_index) =~= (k + nc).push(new_abstraction_index));
                assert(new_abstraction_index == BackingIndex(lo as usize));
                assert(b3.subrange(0, lo) =~= b0) by {
                    assert forall|m: int| 0 <= m < lo implies b3[m] == b0[m] by {
                        assert(b2.subrange(0, lo + 1)[m] == b1[m]);
                    }
                }
            }
            new_abstraction_index
        },
        DebruijnNode::Application(application) => {
            let old_func_index = application.func;
            let old_arg_index = application.arg;
            let ghost f = old_func_index.0 as int;
            let ghost a = old_arg_index.0 as int;
            proof {
                lemma_reach_basics(b0, f, (fuel - 1) as nat);
                lemma_reach_basics(b0, a, (fuel - 1) as nat);
                assert forall|m: int| #[trigger] reach(b0, f, (fuel - 1) as nat).contains(m) implies m < lo0 by {
                    assert(reach(b0, i, fuel).contains(m));
                }
                assert forall|m: int| #[trigger] reach(b0, a, (fuel - 1) as nat).contains(m) implies m < lo0 by {
                    assert(reach(b0, i, fuel).contains(m));
                }
                assert(chain_avoids(k, reach(b0, f, (fuel - 1) as nat))) by {
                    assert forall|j: int| 0 <= j < k.len() implies !reach(b0, f, (fuel - 1) as nat).contains(#[trigger] k[j].0 as int) by {
                        assert(!reach(b0, i, fuel).contains(k[j].0 as int));
                    }
                }
                assert(chain_avoids(k, reach(b0, a, (fuel - 1) as nat))) by {
                    assert forall|j: int| 0 <= j < k.len() implies !reach(b0, a, (fuel - 1) as nat).contains(#[trigger] k[j].0 as int) by {
                        assert(!reach(b0, i, fuel).contains(k[j].0 as int));
                    }
                }
            }
            let new_func = clone_at(tree, old_chain, new_chain, old_func_index, Ghost((fuel - 1) as nat), Ghost(lo0), Ghost(k));
            let ghost b1 = tree.backing@;
            let ghost mid = b1.len() as int;
            proof {
                assert forall|m: int| reach(b0, a, (fuel - 1) as nat).contains(m) implies 0 <= m < b1.len() && skel(#[trigger] b1[m]) == skel(b0[m]) by {
                    assert(b1.subrange(0, lo)[m] == b0[m]);
                }
                lemma_tree_within(b0, a, (fuel - 1) as nat);
                lemma_reach_frame(b0, b1, a, (fuel - 1) as nat);
                assert(chain_in(nc, lo0, b1.len() as int));
            }
            let new_arg = clone_at(tree, old_chain, new_chain, old_arg_index, Ghost((fuel - 1) as nat), Ghost(lo0), Ghost(k));
            let ghost b2 = tree.backing@;
            let r = tree.alloc_node(DebruijnNode::app(new_func, new_arg));
            proof {
                let b3 = tree.backing@;
                let hi = b3.len() as int;
                assert forall|m: int| lo <= m < mid implies b2[m] == b1[m] by {
                    assert(b2.subrange(0, mid)[m] == b1[m]);
                }
                lemma_within_frame(b1, b2, new_func.0 as int, lo, mid, (fuel - 1) as nat, k + nc);
                lemma_within_frame(b1, b3, new_func.0 as int, lo, mid, (fuel - 1) as nat, k + nc);
                lemma_within_frame(b2, b3, new_arg.0 as int, mid, hi - 1, (fuel - 1) as nat, k + nc);
                lemma_tree_within(b1, new_func.0 as int, (fuel - 1) as nat);
                lemma_within_reach(b1, new_func.0 as int, lo, mid, (fuel - 1) as nat);
                assert forall|m: int| reach(b1, new_func.0 as int, (fuel - 1) as nat).contains(m) implies 0 <= m < b3.len() && skel(#[trigger] b3[m]) == skel(b1[m]) by {}
                lemma_reach_frame(b1, b3, new_func.0 as int, (fuel - 1) as nat);
                lemma_tree_within(b2, new_arg.0 as int, (fuel - 1) as nat);
                lemma_within_reach(b2, new_arg.0 as int, mid, hi - 1, (fuel - 1) as nat);
                assert forall|m: int| reach(b2, new_arg.0 as int, (fuel - 1) as nat).contains(m) implies 0 <= m < b3.len() && skel(#[trigger] b3[m]) == skel(b2[m]) by {}
                lemma_reach_frame(b2, b3, new_arg.0 as int, (fuel - 1) as nat);
                lemma_within_reach(b3, new_func.0 as int, lo, mid, (fuel - 1) as nat);
                lemma_within_reach(b3, new_arg.0 as int, mid, hi - 1, (fuel - 1) as nat);
                lemma_within_widen(b3, new_func.0 as int, lo, mid, (fuel - 1) as nat, lo, hi, (fuel - 1) as nat);
                lemma_within_widen(b3, new_arg.0 as int, mid, hi - 1, (fuel - 1) as nat, lo, hi, (fuel - 1) as nat);
                assert(reach(b3, new_func.0 as int, (fuel - 1) as nat).disjoint(reach(b3, new_arg.0 as int, (fuel - 1) as nat)));
                assert(b3.subrange(0, lo) =~= b0) by {
                    assert forall|m: int| 0 <= m < lo implies b3[m] == b0[m] by {
                        assert(b1.subrange(0, lo)[m] == b0[m]);
                        assert(b2.subrange(0, mid)[m] == b1[m]);
                    }
                }
            }
            r
        },
    }
}

/// `t` with the variable of index `depth` (one more under each abstraction) replaced by `v`
/// (its free indices raised by `depth - 1`) and the indices above it lowered by one: the body of
/// an applied abstraction once the abstraction is gone.
pub open spec fn subst_down(t: Debruijn, v: Debruijn, depth: nat) -> Debruijn
    decreases t,
{
    match t {
        Debruijn::Index(i) => if i == depth {
            crate::reference::shift_spec(v, depth - 1, 1)
        } else if i > depth {
            Debruijn::Index((i - 1) as usize)
        } else {
            Debruijn::Index(i)
        },
        Debruijn::Application { func, arg } => Debruijn::Application {
            func: Box::new(subst_down(*func, v, depth)),
            arg: Box::new(subst_down(*arg, v, depth)),
        },
        Debruijn::Abstraction { body } => Debruijn::Abstraction {
            body: Box::new(subst_down(*body, v, depth + 1)),
        },
    }
}

/// Viewing a subtree under more enclosing abstractions `q`, inserted between the outer ones `p`
/// and the inner ones `r`, raises its indices that reach past `r` by the length of `q`.
pub proof fn lemma_weaken(
    b: Seq<DebruijnNode>,
    i: int,
    p: Seq<BackingIndex>,
    q: Seq<BackingIndex>,
    r: Seq<BackingIndex>,
    fuel: nat,
)
    requires
        b.len() <= usize::MAX,
        p.len() + q.len() + r.len() + nest(b, i, fuel) <= usize::MAX,
        node_view(b, i, p + r, fuel) is Some,
        chains_disjoint(r, p),
        chains_disjoint(r, q),
        chain_avoids(p, reach(b, i, fuel)),
        chain_avoids(q, reach(b, i, fuel)),
        crate::reference::can_shift(node_view(b, i, p + r, fuel)->0, q.len() as int, r.len() + 1),
    ensures
        node_view(b, i, p + q + r, fuel) == Some(
            crate::reference::shift_spec(node_view(b, i, p + r, fuel)->0, q.len() as int, r.len() + 1),
        ),
    decreases fuel,
{
    lemma_reach_basics(b, i, fuel);
    match b[i] {
        DebruijnNode::Index(binding) => {
            let t = node_view(b, i, p + r, fuel)->0;
            if let Binding::Bound(x) = binding {
                lemma_chain_pos_append(p, r, x);
                lemma_chain_pos_append(p + q, r, x);
                lemma_chain_pos_append(p, q, x);
                lemma_chain_pos_found(p, x);
                lemma_chain_pos_found(q, x);
                lemma_chain_pos_found(r, x);
                if chain_pos(p, x) >= 0 {
                    let pp = chain_pos(p, x);
                    assert(chain_pos(p + r, x) == pp);
                    assert(chain_pos(p + q + r, x) == pp);
                    assert(t == Debruijn::Index((p.len() + r.len() - pp) as usize));
                    assert(node_view(b, i, p + q + r, fuel) == Some(crate::reference::shift_spec(t, q.len() as int, r.len() + 1)));
                } else {
                    assert(chain_pos(r, x) >= 0);
                    let pr = chain_pos(r, x);
                    if chain_pos(q, x) >= 0 {
                        assert(r[pr] != q[chain_pos(q, x)]);
                    }
                    assert(chain_pos(p + q, x) == -1);
                    assert(chain_pos(p + r, x) == p.len() + pr);
                    assert(chain_pos(p + q + r, x) == p.len() + q.len() + pr);
                    assert(t == Debruijn::Index((r.len() - pr) as usize));
                    assert(node_view(b, i, p + q + r, fuel) == Some(crate::reference::shift_spec(t, q.len() as int, r.len() + 1)));
                }
            } else {
                assert(node_view(b, i, p + q + r, fuel) == Some(crate::reference::shift_spec(t, q.len() as int, r.len() + 1)));
            }
        },
        DebruijnNode::Abstraction(abs) => {
            let c = abs.body.0 as int;
            let me = BackingIndex(i as usize);
            lemma_reach_basics(b, c, (fuel - 1) as nat);
            assert((p + r).push(me) =~= p + r.push(me));
            assert((p + q + r).push(me) =~= p + q + r.push(me));
            assert(reach(b, i, fuel).contains(i));
            assert(chains_disjoint(r.push(me), p)) by {
                assert forall|j: int, k: int| 0 <= j < r.push(me).len() && 0 <= k < p.len() implies r.push(me)[j] != p[k] by {
                    if j == r.len() {
                        assert(!reach(b, i, fuel).contains(p[k].0 as int));
                        assert(me.0 as int == i);
                    } else {
                        assert(r.push(me)[j] == r[j]);
                    }
                }
            }
            assert(chains_disjoint(r.push(me), q)) by {
                assert forall|j: int, k: int| 0 <= j < r.push(me).len() && 0 <= k < q.len() implies r.push(me)[j] != q[k] by {
                    if j == r.len() {
                        assert(!reach(b, i, fuel).contains(q[k].0 as int));
                        assert(me.0 as int == i);
                    } else {
                        assert(r.push(me)[j] == r[j]);
                    }
                }
            }
            assert(chain_avoids(p, reach(b, c, (fuel - 1) as nat))) by {
                assert forall|j: int| 0 <= j < p.len() implies !reach(b, c, (fuel - 1) as nat).contains(#[trigger] p[j].0 as int) by {
                    assert(!reach(b, i, fuel).contains(p[j].0 as int));
                }
            }
            assert(chain_avoids(q, reach(b, c, (fuel - 1) as nat))) by {
                assert forall|j: int| 0 <= j < q.len() implies !reach(b, c, (fuel - 1) as nat).contains(#[trigger] q[j].0 as int) by {
                    assert(!reach(b, i, fuel).contains(q[j].0 as int));
                }
            }
            lemma_weaken(b, c, p, q, r.push(me), (fuel - 1) as nat);
            assert(node_view(b, i, p + q + r, fuel) == Some(crate::reference::shift_spec(node_view(b, i, p + r, fuel)->0, q.len() as int, r.len() + 1)));
        },
        DebruijnNode::Application(app) => {
            let f = app.func.0 as int;
            let a = app.arg.0 as int;
            lemma_reach_basics(b, f, (fuel - 1) as nat);
            lemma_reach_basics(b, a, (fuel - 1) as nat);
            assert(chain_avoids(p, reach(b, f, (fuel - 1) as nat))) by {
                assert forall|j: int| 0 <= j < p.len() implies !reach(b, f, (fuel - 1) as nat).contains(#[trigger] p[j].0 as int) by {
                    assert(!reach(b, i, fuel).contains(p[j].0 as int));
                }
            }
            assert(chain_avoids(q, reach(b, f, (fuel - 1) as nat))) by {
                assert forall|j: int| 0 <= j < q.len() implies !reach(b, f, (fuel - 1) as nat).contains(#[trigger] q[j].0 as int) by {
                    assert(!reach(b, i, fuel).contains(q[j].0 as int));
                }
            }
            assert(chain_avoids(p, reach(b, a, (fuel - 1) as nat))) by {
                assert forall|j: int| 0 <= j < p.len() implies !reach(b, a, (fuel - 1) as nat).contains(#[trigger] p[j].0 as int) by {
                    assert(!reach(b, i, fuel).contains(p[j].0 as int));
                }
            }
            assert(chain_avoids(q, reach(b, a, (fuel - 1) as nat))) by {
                assert forall|j: int| 0 <= j < q.len() implies !reach(b, a, (fuel - 1) as nat).contains(#[trigger] q[j].0 as int) by {
                    assert(!reach(b, i, fuel).contains(q[j].0 as int));
                }
            }
            lemma_weaken(b, f, p, q, r, (fuel - 1) as nat);
            lemma_weaken(b, a, p, q, r, (fuel - 1) as nat);
        },
    }
}

/// Every copy of `v` that `subst_down(t, v, depth)` makes fits in `usize`.
pub open spec fn subst_fits(t: Debruijn, v: Debruijn, depth: nat) -> bool
    decreases t,
{
    match t {
        Debruijn::Index(i) => i == depth ==> crate::reference::can_shift(v, depth - 1, 1),
        Debruijn::Application { func, arg } => subst_fits(*func, v, depth) && subst_fits(*arg, v, depth),
        Debruijn::Abstraction { body } => subst_fits(*body, v, depth + 1),
    }
}

/// A tree for some fuel is a tree, with the same nodes and counts, for more fuel.
pub proof fn lemma_tree_fuel(b: Seq<DebruijnNode>, i: int, f1: nat, f2: nat)
    requires
        is_tree(b, i, f1),
        f1 <= f2,
    ensures
        is_tree(b, i, f2),
        reach(b, i, f2) == reach(b, i, f1),
        forall|t: BackingIndex| #[trigger] bound_count(b, t, i, f2) == bound_count(b, t, i, f1),
        nest(b, i, f2) == nest(b, i, f1),
        reach_size(b, i, f2) == reach_size(b, i, f1),
    decreases f1,
{
    lemma_tree_within(b, i, f1);
    lemma_within_fuel(b, i, f1, f2);
    match b[i] {
        DebruijnNode::Index(_) => {},
        DebruijnNode::Abstraction(abs) => {
            lemma_tree_fuel(b, abs.body.0 as int, (f1 - 1) as nat, (f2 - 1) as nat);
        },
        DebruijnNode::Application(app) => {
            lemma_tree_fuel(b, app.func.0 as int, (f1 - 1) as nat, (f2 - 1) as nat);
            lemma_tree_fuel(b, app.arg.0 as int, (f1 - 1) as nat, (f2 - 1) as nat);
        },
    }
}

/// The node that the edge `e` leads to, in a tree with root `root`.
pub open spec fn edge_child(b: Seq<DebruijnNode>, root: BackingIndex, e: EdgeWithParent) -> Option<BackingIndex> {
    match e {
        EdgeWithParent::IntoRoot => Some(root),
        EdgeWithParent::AbsToBody(p) => if p.0 < b.len() && b[p.0 as int] is Abstraction {
            Some(b[p.0 as int]->Abstraction_0.body)
        } else {
            None
        },
        EdgeWithParent::AppToFunc(p) => if p.0 < b.len() && b[p.0 as int] is Application {
            Some(b[p.0 as int]->Application_0.func)
        } else {
            None
        },
        EdgeWithParent::AppToArg(p) => if p.0 < b.len() && b[p.0 as int] is Application {
            Some(b[p.0 as int]->Application_0.arg)
        } else {
            None
        },
    }
}

/// The vector with the edge `e` (other than the edge into the root) led to `child`.
pub open spec fn set_edge(b: Seq<DebruijnNode>, e: EdgeWithParent, child: BackingIndex) -> Seq<DebruijnNode> {
    match e {
        EdgeWithParent::IntoRoot => b,
        EdgeWithParent::AbsToBody(p) => b.update(
            p.0 as int,
            DebruijnNode::Abstraction(Abstraction { body: child, usage: b[p.0 as int]->Abstraction_0.usage }),
        ),
        EdgeWithParent::AppToFunc(p) => b.update(
            p.0 as int,
            DebruijnNode::Application(Application { func: child, arg: b[p.0 as int]->Application_0.arg }),
        ),
        EdgeWithParent::AppToArg(p) => b.update(
            p.0 as int,
            DebruijnNode::Application(Application { func: b[p.0 as int]->Application_0.func, arg: child }),
        ),
    }
}

/// Makes the edge `parent` lead to `child`; the node it led to before is left in place.
fn repoint_node(tree: &mut FlatTree, parent: EdgeWithParent, child: BackingIndex)
    requires
        edge_child(old(tree).backing@, old(tree).root, parent) is Some,
        parent.parent_spec() != Some(child),
    ensures
        final(tree).backing@ == set_edge(old(tree).backing@, parent, child),
        final(tree).root == if parent is IntoRoot {
            child
        } else {
            old(tree).root
        },
{
    match parent {
        EdgeWithParent::AbsToBody(parent) => {
            let abs = tree.get_abs(parent);
            tree.set_node(parent, DebruijnNode::abs(child, abs.usage));
        },
        EdgeWithParent::AppToFunc(parent) => {
            let app = tree.get_app(parent);
            tree.set_node(parent, DebruijnNode::app(child, app.arg));
        },
        EdgeWithParent::AppToArg(parent) => {
            let app = tree.get_app(parent);
            tree.set_node(parent, DebruijnNode::app(app.func, child));
        },
        EdgeWithParent::IntoRoot => tree.root = child,
    }
}

/// Appends a copy of the subtree at `index` and returns the position of its root.
fn clone_subtree(tree: &mut FlatTree, index: BackingIndex, Ghost(fuel): Ghost<nat>, Ghost(k): Ghost<Seq<BackingIndex>>) -> (r: BackingIndex)
    requires
        is_tree(old(tree).backing@, index.0 as int, fuel),
        old(tree).backing@.len() + reach_size(old(tree).backing@, index.0 as int, fuel) <= usize::MAX,
        node_view(old(tree).backing@, index.0 as int, k, fuel) is Some,
        chain_in(k, 0, old(tree).backing@.len() as int),
        chain_avoids(k, reach(old(tree).backing@, index.0 as int, fuel)),
    ensures
        ({
            let b0 = old(tree).backing@;
            let b = final(tree).backing@;
            let lo = b0.len() as int;
            &&& final(tree).root == old(tree).root
            &&& b.len() == b0.len() + reach_size(b0, index.0 as int, fuel)
            &&& b.subrange(0, lo) == b0
            &&& within(b, r.0 as int, lo, b.len() as int, fuel)
            &&& is_tree(b, r.0 as int, fuel)
            &&& node_view(b, r.0 as int, k, fuel) == node_view(b0, index.0 as int, k, fuel)
        }),
{
    let mut old_chain: Vec<BackingIndex> = Vec::new();
    let mut new_chain: Vec<BackingIndex> = Vec::new();
    proof {
        lemma_reach_basics(tree.backing@, index.0 as int, fuel);
        assert(k + old_chain@ =~= k);
        assert(k + new_chain@ =~= k);
        assert(forall|m: int| #[trigger] reach(tree.backing@, index.0 as int, fuel).contains(m) ==> m < tree.backing@.len());
    }
    clone_at(tree, &mut old_chain, &mut new_chain, index, Ghost(fuel), Ghost(tree.backing@.len() as int), Ghost(k))
}

/// The facts about the argument of a redex that hold while its body is traversed: it is a
/// tree of old nodes with the view `ta` under the abstractions `c` above the redex.
pub open spec fn subst_env(
    b: Seq<DebruijnNode>,
    f: BackingIndex,
    a: BackingIndex,
    fa: nat,
    c: Seq<BackingIndex>,
    ta: Debruijn,
    lo0: int,
) -> bool {
    &&& is_tree(b, a.0 as int, fa)
    &&& node_view(b, a.0 as int, c, fa) == Some(ta)
    &&& chain_avoids(c, reach(b, a.0 as int, fa))
    &&& chain_in(c, 0, lo0)
    &&& !c.contains(f)
    &&& 0 <= f.0 < lo0
    &&& forall|m: int| #[trigger] reach(b, a.0 as int, fa).contains(m) ==> m < lo0
    &&& 0 <= lo0 <= b.len()
    &&& b.len() <= usize::MAX
}

/// Nodes outside `r` and other than `pp`, among the first `n`, are the same in `b1` and `b2`.
pub open spec fn kept_outside(b1: Seq<DebruijnNode>, b2: Seq<DebruijnNode>, r: Set<int>, pp: int) -> bool {
    &&& b1.len() <= b2.len()
    &&& forall|k: int| 0 <= k < b1.len() && !r.contains(k) && k != pp ==> #[trigger] b2[k] == b1[k]
}

/// The environment of a redex is kept when its argument's nodes are.
pub proof fn lemma_env_frame(
    b1: Seq<DebruijnNode>,
    b2: Seq<DebruijnNode>,
    f: BackingIndex,
    a: BackingIndex,
    fa: nat,
    c: Seq<BackingIndex>,
    ta: Debruijn,
    lo0: int,
)
    requires
        subst_env(b1, f, a, fa, c, ta, lo0),
        b1.len() <= b2.len() <= usize::MAX,
        forall|m: int| #[trigger] reach(b1, a.0 as int, fa).contains(m) ==> b2[m] == b1[m],
    ensures
        subst_env(b2, f, a, fa, c, ta, lo0),
        reach(b2, a.0 as int, fa) == reach(b1, a.0 as int, fa),
        reach_size(b2, a.0 as int, fa) == reach_size(b1, a.0 as int, fa),
        nest(b2, a.0 as int, fa) == nest(b1, a.0 as int, fa),
        forall|ch: Seq<BackingIndex>| #[trigger] node_view(b2, a.0 as int, ch, fa) == node_view(b1, a.0 as int, ch, fa),
{
    lemma_tree_within(b1, a.0 as int, fa);
    lemma_reach_basics(b1, a.0 as int, fa);
    lemma_reach_frame(b1, b2, a.0 as int, fa);
    lemma_nest_frame(b1, b2, a.0 as int, fa);
}

/// The nesting depth depends only on the nodes reached.
pub proof fn lemma_nest_frame(b1: Seq<DebruijnNode>, b2: Seq<DebruijnNode>, i: int, fuel: nat)
    requires
        within(b1, i, 0, b1.len() as int, fuel),
        forall|k: int| reach(b1, i, fuel).contains(k) ==> 0 <= k < b2.len() && skel(#[trigger] b2[k]) == skel(b1[k]),
    ensures
        nest(b2, i, fuel) == nest(b1, i, fuel),
    decreases fuel,
{
    lemma_reach_basics(b1, i, fuel);
    assert(skel(b2[i]) == skel(b1[i]));
    match b1[i] {
        DebruijnNode::Index(_) => {},
        DebruijnNode::Abstraction(abs) => {
            lemma_nest_frame(b1, b2, abs.body.0 as int, (fuel - 1) as nat);
        },
        DebruijnNode::Application(app) => {
            lemma_nest_frame(b1, b2, app.func.0 as int, (fuel - 1) as nat);
            lemma_nest_frame(b1, b2, app.arg.0 as int, (fuel - 1) as nat);
        },
    }
}

/// Where a binding lies in the chain with and without the abstraction `f` removed.
pub proof fn lemma_drop_binder(c: Seq<BackingIndex>, f: BackingIndex, d: Seq<BackingIndex>, x: BackingIndex)
    requires
        !c.contains(f),
        !d.contains(f),
        chains_disjoint(d, c),
    ensures
        x == f ==> chain_pos(c, x) < 0,
        chain_pos(c, x) >= 0 ==> chain_pos(c.push(f) + d, x) == chain_pos(c, x) && chain_pos(c + d, x) == chain_pos(c, x),
        chain_pos(c, x) < 0 && x == f ==> chain_pos(c.push(f) + d, x) == c.len(),
        chain_pos(c, x) < 0 && x != f && chain_pos(d, x) >= 0 ==> chain_pos(c.push(f) + d, x) == c.len() + 1 + chain_pos(d, x)
            && chain_pos(c + d, x) == c.len() + chain_pos(d, x),
        chain_pos(c, x) < 0 && x != f && chain_pos(d, x) < 0 ==> chain_pos(c.push(f) + d, x) == -1 && chain_pos(c + d, x) == -1,
{
    let cf = c.push(f);
    assert(cf =~= c + seq![f]);
    lemma_chain_pos_append(c, seq![f], x);
    lemma_chain_pos_append(cf, d, x);
    lemma_chain_pos_append(c, d, x);
    lemma_chain_pos_found(c, x);
    lemma_chain_pos_found(d, x);
    assert(chain_pos(seq![f], x) == if x == f { 0int } else { -1int }) by {
        let s1 = seq![f];
        assert(s1[0] == f);
        assert(s1.drop_first() =~= Seq::<BackingIndex>::empty());
        assert(chain_pos(Seq::<BackingIndex>::empty(), x) == -1);
    }
    if chain_pos(c, x) >= 0 {
        assert(c.contains(x)) by {
            assert(c[chain_pos(c, x)] == x);
        }
    }
}

/// Replaces, in the subtree at `node_index` of the body of a redex, every variable bound to
/// `func_index` by the argument at `arg_index`: the last one by the argument itself, the
/// others by copies of it; `substitution_i` counts the replacements made.
#[verifier::rlimit(100)]
#[verifier::spinoff_prover]
fn substitute_at(
    tree: &mut FlatTree,
    substitution_i: &mut usize,
    func_index: BackingIndex,
    arg_index: BackingIndex,
    body_usage: usize,
    node_index: BackingIndex,
    parent_to_node: EdgeWithParent,
    Ghost(fuel): Ghost<nat>,
    Ghost(c): Ghost<Seq<BackingIndex>>,
    Ghost(d): Ghost<Seq<BackingIndex>>,
    Ghost(fa): Ghost<nat>,
    Ghost(ta): Ghost<Debruijn>,
    Ghost(lo0): Ghost<int>,
)
    requires
        ({
            let b = old(tree).backing@;
            let i = node_index.0 as int;
            let a = arg_index.0 as int;
            let pp = (parent_to_node.parent_spec()->0).0 as int;
            &&& subst_env(b, func_index, arg_index, fa, c, ta, lo0)
            &&& is_tree(b, i, fuel)
            &&& !(parent_to_node is IntoRoot)
            &&& edge_child(b, old(tree).root, parent_to_node) == Some(node_index)
            &&& 0 <= pp < lo0
            &&& !reach(b, i, fuel).contains(pp)
            &&& !reach(b, a, fa).contains(pp)
            &&& node_view(b, i, c.push(func_index) + d, fuel) is Some
            &&& chain_in(d, 0, lo0)
            &&& chains_disjoint(d, c)
            &&& !d.contains(func_index)
            &&& chain_avoids(d, reach(b, a, fa))
            &&& chain_avoids(c.push(func_index) + d, reach(b, i, fuel))
            &&& reach(b, i, fuel).disjoint(reach(b, a, fa))
            &&& forall|m: int| #[trigger] reach(b, i, fuel).contains(m) ==> m < lo0
            &&& *old(substitution_i) + bound_count(b, func_index, i, fuel) <= body_usage
            &&& body_usage >= 1
            &&& b.len() + (body_usage - *old(substitution_i)) * reach_size(b, a, fa) <= usize::MAX
            &&& c.len() + 1 + d.len() + nest(b, i, fuel) + nest(b, a, fa) <= usize::MAX
            &&& subst_fits(node_view(b, i, c.push(func_index) + d, fuel)->0, ta, d.len() + 1)
        }),
    ensures
        ({
            let b0 = old(tree).backing@;
            let b = final(tree).backing@;
            let i = node_index.0 as int;
            let a = arg_index.0 as int;
            let pp = (parent_to_node.parent_spec()->0).0 as int;
            let t = node_view(b0, i, c.push(func_index) + d, fuel)->0;
            let r = edge_child(b, final(tree).root, parent_to_node);
            let s0 = *old(substitution_i);
            let s1 = *final(substitution_i);
            &&& final(tree).root == old(tree).root
            &&& r is Some
            &&& s1 == s0 + bound_count(b0, func_index, i, fuel)
            &&& b.len() + (body_usage - s1) * reach_size(b0, a, fa) <= usize::MAX
            &&& kept_outside(b0, b, reach(b0, i, fuel), pp)
            &&& b[pp] == set_edge(b0, parent_to_node, r->0)[pp]
            &&& is_tree(b, (r->0).0 as int, fuel + fa)
            &&& node_view(b, (r->0).0 as int, c + d, fuel + fa) == Some(subst_down(t, ta, d.len() + 1))
            &&& forall|m: int| #[trigger] reach(b, (r->0).0 as int, fuel + fa).contains(m) ==> reach(b0, i, fuel).contains(m)
                || (b0.len() <= m < b.len()) || (s0 <= body_usage - 1 < s1 && reach(b0, a, fa).contains(m))
            &&& nest(b, (r->0).0 as int, fuel + fa) <= nest(b0, i, fuel) + nest(b0, a, fa)
        }),
    decreases fuel,
{
    let ghost b0 = tree.backing@;
    let ghost i = node_index.0 as int;
    let ghost a = arg_index.0 as int;
    let ghost pp = (parent_to_node.parent_spec()->0).0 as int;
    let ghost s0 = *substitution_i;
    let ghost chain_in_old = c.push(func_index) + d;
    let ghost t = node_view(b0, i, chain_in_old, fuel)->0;
    proof {
        lemma_reach_basics(b0, i, fuel);
        lemma_reach_basics(b0, a, fa);
        lemma_tree_within(b0, i, fuel);
        lemma_tree_within(b0, a, fa);
    }
    match tree.node(node_index) {
        DebruijnNode::Index(binding) => {
            let is_substituting = binding.is_bound_to(func_index);
            if is_substituting {
                let last_arg_allocation = *substitution_i == body_usage - 1;
                proof {
                    lemma_drop_binder(c, func_index, d, func_index);
                    assert(t == Debruijn::Index((d.len() + 1) as usize));
                    lemma_weaken(b0, a, c, d, Seq::empty(), fa);
                    assert(c + Seq::<BackingIndex>::empty() =~= c);
                    assert(c + d + Seq::<BackingIndex>::empty() =~= c + d);
                }
                let new_child = if last_arg_allocation {
                    arg_index
                } else {
                    proof {
                        assert(chain_in(c + d, 0, b0.len() as int)) by {
                            assert forall|j: int| 0 <= j < (c + d).len() implies 0 <= #[trigger] (c + d)[j].0 < b0.len() by {
                                if j < c.len() {
                                    assert((c + d)[j] == c[j]);
                                } else {
                                    assert((c + d)[j] == d[j - c.len()]);
                                }
                            }
                        }
                        assert(chain_avoids(c + d, reach(b0, a, fa))) by {
                            assert forall|j: int| 0 <= j < (c + d).len() implies !reach(b0, a, fa).contains(#[trigger] (c + d)[j].0 as int) by {
                                if j < c.len() {
                                    assert((c + d)[j] == c[j]);
                                } else {
                                    assert((c + d)[j] == d[j - c.len()]);
                                }
                            }
                        }
                        assert(reach_size(b0, a, fa) <= (body_usage - s0) * reach_size(b0, a, fa)) by (nonlinear_arith)
                            requires body_usage - s0 >= 1;
                    }
                    clone_subtree(tree, arg_index, Ghost(fa), Ghost(c + d))
                };
                let ghost b1 = tree.backing@;
                proof {
                    assert(pp != new_child.0 as int) by {
                        if !last_arg_allocation {
                            lemma_reach_basics(b1, new_child.0 as int, fa);
                            lemma_within_reach(b1, new_child.0 as int, b0.len() as int, b1.len() as int, fa);
                        }
                    }
                    assert(b1.subrange(0, b0.len() as int) == b0);
                    assert(b1[pp] == b0[pp]);
                }
                repoint_node(tree, parent_to_node, new_child);
                *substitution_i = *substitution_i + 1;
                proof {
                    let b = tree.backing@;
                    let nc = new_child.0 as int;
                    assert(bound_count(b0, func_index, i, fuel) == 1);
                    assert(kept_outside(b0, b, reach(b0, i, fuel), pp)) by {
                        assert forall|k: int| 0 <= k < b0.len() && !reach(b0, i, fuel).contains(k) && k != pp implies #[trigger] b[k] == b0[k] by {
                            assert(b1.subrange(0, b0.len() as int)[k] == b0[k]);
                        }
                    }
                    if last_arg_allocation {
                        assert forall|m: int| #[trigger] reach(b0, a, fa).contains(m) implies b[m] == b0[m] by {
                            assert(m != pp);
                        }
                        lemma_env_frame(b0, b, func_index, arg_index, fa, c, ta, lo0);
                        lemma_tree_fuel(b, a, fa, fuel + fa);
                        lemma_view_fuel(b, a, c + d, fa, fuel + fa);
                    } else {
                        lemma_reach_basics(b1, nc, fa);
                        lemma_within_reach(b1, nc, b0.len() as int, b1.len() as int, fa);
                        assert forall|m: int| reach(b1, nc, fa).contains(m) implies 0 <= m < b.len() && skel(#[trigger] b[m]) == skel(b1[m]) by {}
                        lemma_tree_within(b1, nc, fa);
                        lemma_reach_frame(b1, b, nc, fa);
                        lemma_nest_frame(b1, b, nc, fa);
                        lemma_tree_fuel(b, nc, fa, fuel + fa);
                        lemma_view_fuel(b, nc, c + d, fa, fuel + fa);
                        assert(nest(b, nc, fa) == nest(b0, a, fa)) by {
                            lemma_view_counts(b1, nc, c + d, fa);
                            lemma_view_counts(b0, a, c + d, fa);
                        }
                        assert(b.len() == b0.len() + reach_size(b0, a, fa));
                    }
                    let rsa = reach_size(b0, a, fa);
                    assert(b.len() + (body_usage - *substitution_i) * rsa <= usize::MAX) by {
                        assert((body_usage - s0) * rsa == (body_usage - s0 - 1) * rsa + rsa) by (nonlinear_arith);
                    }
                    assert(edge_child(b, tree.root, parent_to_node) == Some(new_child));
                    assert(node_view(b0, a, c + d, fa) == Some(crate::reference::shift_spec(ta, d.len() as int, 1)));
                    assert(node_view(b, nc, c + d, fuel + fa) == Some(crate::reference::shift_spec(ta, d.len() as int, 1)));
                    assert(subst_down(t, ta, d.len() + 1) == crate::reference::shift_spec(ta, d.len() as int, 1));
                }
            } else {
                proof {
                    let b = tree.backing@;
                    assert(bound_count(b0, func_index, i, fuel) == 0);
                    if let Binding::Bound(x) = binding {
                        lemma_drop_binder(c, func_index, d, x);
                        lemma_chain_pos_found(c, x);
                        lemma_chain_pos_found(d, x);
                    }
                    lemma_tree_fuel(b0, i, fuel, fuel + fa);
                }
            }
        },
        DebruijnNode::Abstraction(abstraction) => {
            let ghost body = abstraction.body.0 as int;
            let ghost me = node_index;
            let ghost d2 = d.push(me);
            proof {
                lemma_reach_basics(b0, body, (fuel - 1) as nat);
                assert(chain_in_old.push(me) =~= c.push(func_index) + d2);
                assert(reach(b0, i, fuel).contains(i));
                assert(me == BackingIndex(i as usize));
                assert(chain_in(d2, 0, lo0)) by {
                    assert forall|j: int| 0 <= j < d2.len() implies 0 <= #[trigger] d2[j].0 < lo0 by {
                        if j < d.len() { assert(d2[j] == d[j]); }
                    }
                }
                assert(chains_disjoint(d2, c)) by {
                    assert forall|j: int, k: int| 0 <= j < d2.len() && 0 <= k < c.len() implies d2[j] != c[k] by {
                        if j < d.len() {
                            assert(d2[j] == d[j]);
                        } else {
                            assert((c.push(func_index) + d)[k] == c[k]);
                            assert(!reach(b0, i, fuel).contains(c[k].0 as int));
                        }
                    }
                }
                assert(!d2.contains(func_index)) by {
                    assert((c.push(func_index) + d)[c.len() as int] == func_index);
                    assert(!reach(b0, i, fuel).contains(func_index.0 as int));
                    assert forall|j: int| 0 <= j < d2.len() implies d2[j] != func_index by {
                        if j < d.len() { assert(d2[j] == d[j]); }
                    }
                }
                assert(chain_avoids(d2, reach(b0, a, fa))) by {
                    assert forall|j: int| 0 <= j < d2.len() implies !reach(b0, a, fa).contains(#[trigger] d2[j].0 as int) by {
                        if j < d.len() { assert(d2[j] == d[j]); }
                    }
                }
                let cb = c.push(func_index) + d2;
                assert(chain_avoids(cb, reach(b0, body, (fuel - 1) as nat))) by {
                    assert forall|j: int| 0 <= j < cb.len() implies !reach(b0, body, (fuel - 1) as nat).contains(#[trigger] cb[j].0 as int) by {
                        if j < chain_in_old.len() {
                            assert(cb[j] == chain_in_old[j]);
                            assert(!reach(b0, i, fuel).contains(chain_in_old[j].0 as int));
                        }
                    }
                }
                assert forall|m: int| #[trigger] reach(b0, body, (fuel - 1) as nat).contains(m) implies m < lo0 by {
                    assert(reach(b0, i, fuel).contains(m));
                }
                assert(reach(b0, body, (fuel - 1) as nat).disjoint(reach(b0, a, fa))) by {
                    assert forall|m: int| reach(b0, body, (fuel - 1) as nat).contains(m) implies !reach(b0, a, fa).contains(m) by {
                        assert(reach(b0, i, fuel).contains(m));
                    }
                }
            }
            substitute_at(
                tree,
                substitution_i,
                func_index,
                arg_index,
                body_usage,
                abstraction.body,
                EdgeWithParent::AbsToBody(node_index),
                Ghost((fuel - 1) as nat),
                Ghost(c),
                Ghost(d2),
                Ghost(fa),
                Ghost(ta),
                Ghost(lo0),
            );
            proof {
                let b = tree.backing@;
                let rb = b[i]->Abstraction_0.body.0 as int;
                assert(b[pp] == b0[pp]);
                assert(kept_outside(b0, b, reach(b0, i, fuel), pp)) by {
                    assert forall|k: int| 0 <= k < b0.len() && !reach(b0, i, fuel).contains(k) && k != pp implies #[trigger] b[k] == b0[k] by {
                        assert(k != i);
                    }
                }
                assert((c + d).push(me) =~= c + d2);
                assert(!reach(b, rb, (fuel - 1 + fa) as nat).contains(i));
                assert(edge_child(b, tree.root, parent_to_node) == Some(node_index));
                assert(node_view(b, i, c + d, fuel + fa) == Some(subst_down(t, ta, d.len() + 1)));
                assert(b.len() + (body_usage - *substitution_i) * reach_size(b0, a, fa) <= usize::MAX);
            }
        },
        DebruijnNode::Application(application) => {
            let ghost fi = application.func.0 as int;
            let ghost ai = application.arg.0 as int;
            proof {
                lemma_reach_basics(b0, fi, (fuel - 1) as nat);
                lemma_reach_basics(b0, ai, (fuel - 1) as nat);
                assert(reach(b0, i, fuel).contains(i));
                assert(chain_avoids(chain_in_old, reach(b0, fi, (fuel - 1) as nat))) by {
                    assert forall|j: int| 0 <= j < chain_in_old.len() implies !reach(b0, fi, (fuel - 1) as nat).contains(#[trigger] chain_in_old[j].0 as int) by {
                        assert(!reach(b0, i, fuel).contains(chain_in_old[j].0 as int));
                    }
                }
                assert(chain_avoids(chain_in_old, reach(b0, ai, (fuel - 1) as nat))) by {
                    assert forall|j: int| 0 <= j < chain_in_old.len() implies !reach(b0, ai, (fuel - 1) as nat).contains(#[trigger] chain_in_old[j].0 as int) by {
                        assert(!reach(b0, i, fuel).contains(chain_in_old[j].0 as int));
                    }
                }
                assert forall|m: int| #[trigger] reach(b0, fi, (fuel - 1) as nat).contains(m) implies m < lo0 && !reach(b0, a, fa).contains(m) by {
                    assert(reach(b0, i, fuel).contains(m));
                }
                assert forall|m: int| #[trigger] reach(b0, ai, (fuel - 1) as nat).contains(m) implies m < lo0 && !reach(b0, a, fa).contains(m) by {
                    assert(reach(b0, i, fuel).contains(m));
                }
                assert(reach(b0, fi, (fuel - 1) as nat).disjoint(reach(b0, a, fa)));
                assert(reach(b0, ai, (fuel - 1) as nat).disjoint(reach(b0, a, fa)));
            }
            substitute_at(
                tree,
                substitution_i,
                func_index,
                arg_index,
                body_usage,
                application.func,
                EdgeWithParent::AppToFunc(node_index),
                Ghost((fuel - 1) as nat),
                Ghost(c),
                Ghost(d),
                Ghost(fa),
                Ghost(ta),
                Ghost(lo0),
            );
            let ghost b1 = tree.backing@;
            let ghost s1 = *substitution_i;
            let ghost rf = b1[i]->Application_0.func.0 as int;
            proof {
                assert(b1[i] == DebruijnNode::Application(Application { func: b1[i]->Application_0.func, arg: application.arg }));
                assert forall|m: int| #[trigger] reach(b0, ai, (fuel - 1) as nat).contains(m) implies b1[m] == b0[m] by {
                    assert(!reach(b0, fi, (fuel - 1) as nat).contains(m));
                    assert(m != i);
                }
                lemma_reach_frame(b0, b1, ai, (fuel - 1) as nat);
                lemma_nest_frame(b0, b1, ai, (fuel - 1) as nat);
                assert forall|m: int| #[trigger] reach(b0, a, fa).contains(m) implies b1[m] == b0[m] by {
                    assert(!reach(b0, fi, (fuel - 1) as nat).contains(m));
                    assert(m != i);
                }
                lemma_env_frame(b0, b1, func_index, arg_index, fa, c, ta, lo0);
                assert(b1[pp] == b0[pp]);
                assert(bound_count(b0, func_index, i, fuel) == bound_count(b0, func_index, fi, (fuel - 1) as nat) + bound_count(b0, func_index, ai, (fuel - 1) as nat));
            }
            substitute_at(
                tree,
                substitution_i,
                func_index,
                arg_index,
                body_usage,
                application.arg,
                EdgeWithParent::AppToArg(node_index),
                Ghost((fuel - 1) as nat),
                Ghost(c),
                Ghost(d),
                Ghost(fa),
                Ghost(ta),
                Ghost(lo0),
            );
            proof {
                let b = tree.backing@;
                let ra = b[i]->Application_0.arg.0 as int;
                let fr = (fuel - 1 + fa) as nat;
                assert(b[i]->Application_0.func.0 as int == rf);
                assert forall|m: int| reach(b1, rf, fr).contains(m) implies 0 <= m < b.len() && skel(#[trigger] b[m]) == skel(b1[m]) by {
                    lemma_reach_basics(b1, rf, fr);
                    if m < b0.len() {
                        assert(!reach(b0, ai, (fuel - 1) as nat).contains(m));
                        assert(m != i);
                    }
                }
                lemma_tree_within(b1, rf, fr);
                lemma_reach_frame(b1, b, rf, fr);
                lemma_nest_frame(b1, b, rf, fr);
                assert(b[pp] == b0[pp]);
                assert(kept_outside(b0, b, reach(b0, i, fuel), pp)) by {
                    assert forall|k: int| 0 <= k < b0.len() && !reach(b0, i, fuel).contains(k) && k != pp implies #[trigger] b[k] == b0[k] by {
                        assert(k != i);
                        assert(!reach(b0, fi, (fuel - 1) as nat).contains(k));
                        assert(!reach(b0, ai, (fuel - 1) as nat).contains(k));
                    }
                }
                assert(reach(b, rf, fr).disjoint(reach(b, ra, fr))) by {
                    assert forall|m: int| reach(b, rf, fr).contains(m) implies !reach(b, ra, fr).contains(m) by {
                        if reach(b, ra, fr).contains(m) {
                            assert(reach(b1, rf, fr).contains(m));
                        }
                    }
                }
                assert(!reach(b, rf, fr).contains(i));
                assert(!reach(b, ra, fr).contains(i));
                let tf = node_view(b0, fi, chain_in_old, (fuel - 1) as nat)->0;
                let tg = node_view(b0, ai, chain_in_old, (fuel - 1) as nat)->0;
                assert(node_view(b1, rf, c + d, fr) == Some(subst_down(tf, ta, d.len() + 1)));
                assert(node_view(b, rf, c + d, fr) == Some(subst_down(tf, ta, d.len() + 1)));
                assert(node_view(b, ra, c + d, fr) == Some(subst_down(tg, ta, d.len() + 1)));
                assert(edge_child(b, tree.root, parent_to_node) == Some(node_index));
                assert(node_view(b, i, c + d, fuel + fa) == Some(subst_down(t, ta, d.len() + 1)));
                assert(b.len() + (body_usage - *substitution_i) * reach_size(b0, a, fa) <= usize::MAX);
            }
        },
    }
}

/// The term at `i` under `chain` with the redex at `p` contracted: its body, with the argument
/// substituted for its variable.
pub open spec fn reduced_view(b: Seq<DebruijnNode>, i: int, chain: Seq<BackingIndex>, fuel: nat, p: int) -> Option<Debruijn>
    decreases fuel,
{
    if fuel == 0 || i < 0 || i >= b.len() {
        None
    } else if i == p {
        match node_view(b, i, chain, fuel) {
            Some(Debruijn::Application { func, arg }) => match *func {
                Debruijn::Abstraction { body } => Some(subst_down(*body, *arg, 1)),
                _ => None,
            },
            _ => None,
        }
    } else {
        match b[i] {
            DebruijnNode::Index(binding) => match binding_index(chain, binding) {
                Some(k) => Some(Debruijn::Index(k)),
                None => None,
            },
            DebruijnNode::Abstraction(abs) => match reduced_view(
                b,
                abs.body.0 as int,
                chain.push(BackingIndex(i as usize)),
                (fuel - 1) as nat,
                p,
            ) {
                Some(t) => Some(Debruijn::Abstraction { body: Box::new(t) }),
                None => None,
            },
            DebruijnNode::Application(app) => match (
                reduced_view(b, app.func.0 as int, chain, (fuel - 1) as nat, p),
                reduced_view(b, app.arg.0 as int, chain, (fuel - 1) as nat, p),
            ) {
                (Some(f), Some(a)) => Some(Debruijn::Application { func: Box::new(f), arg: Box::new(a) }),
                _ => None,
            },
        }
    }
}

/// Where `target` is reached from `i` (itself reached by `edge` under `chain`): the
/// abstractions above it and the edge that leads to it, first found in preorder.
pub open spec fn locate(
    b: Seq<DebruijnNode>,
    i: int,
    edge: EdgeWithParent,
    chain: Seq<BackingIndex>,
    fuel: nat,
    target: int,
) -> Option<(Seq<BackingIndex>, EdgeWithParent)>
    decreases fuel,
{
    if fuel == 0 || i < 0 || i >= b.len() {
        None
    } else if i == target {
        Some((chain, edge))
    } else {
        match b[i] {
            DebruijnNode::Index(_) => None,
            DebruijnNode::Abstraction(abs) => locate(
                b,
                abs.body.0 as int,
                EdgeWithParent::AbsToBody(BackingIndex(i as usize)),
                chain.push(BackingIndex(i as usize)),
                (fuel - 1) as nat,
                target,
            ),
            DebruijnNode::Application(app) => match locate(
                b,
                app.func.0 as int,
                EdgeWithParent::AppToFunc(BackingIndex(i as usize)),
                chain,
                (fuel - 1) as nat,
                target,
            ) {
                Some(x) => Some(x),
                None => locate(
                    b,
                    app.arg.0 as int,
                    EdgeWithParent::AppToArg(BackingIndex(i as usize)),
                    chain,
                    (fuel - 1) as nat,
                    target,
                ),
            },
        }
    }
}

/// A target out of reach is not found, and a target found is reached.
pub proof fn lemma_locate_reach(
    b: Seq<DebruijnNode>,
    i: int,
    edge: EdgeWithParent,
    chain: Seq<BackingIndex>,
    fuel: nat,
    target: int,
)
    ensures
        locate(b, i, edge, chain, fuel, target) is Some <==> reach(b, i, fuel).contains(target),
    decreases fuel,
{
    lemma_reach_basics(b, i, fuel);
    if fuel > 0 && 0 <= i < b.len() && i != target {
        match b[i] {
            DebruijnNode::Index(_) => {},
            DebruijnNode::Abstraction(abs) => {
                lemma_locate_reach(b, abs.body.0 as int, EdgeWithParent::AbsToBody(BackingIndex(i as usize)), chain.push(BackingIndex(i as usize)), (fuel - 1) as nat, target);
            },
            DebruijnNode::Application(app) => {
                lemma_locate_reach(b, app.func.0 as int, EdgeWithParent::AppToFunc(BackingIndex(i as usize)), chain, (fuel - 1) as nat, target);
                lemma_locate_reach(b, app.arg.0 as int, EdgeWithParent::AppToArg(BackingIndex(i as usize)), chain, (fuel - 1) as nat, target);
            },
        }
    }
}

/// Without the target in reach, the contracted view is the view.
pub proof fn lemma_reduced_away(b: Seq<DebruijnNode>, i: int, chain: Seq<BackingIndex>, fuel: nat, p: int)
    requires
        !reach(b, i, fuel).contains(p),
    ensures
        reduced_view(b, i, chain, fuel, p) == node_view(b, i, chain, fuel),
    decreases fuel,
{
    lemma_reach_basics(b, i, fuel);
    if fuel > 0 && 0 <= i < b.len() {
        match b[i] {
            DebruijnNode::Index(_) => {},
            DebruijnNode::Abstraction(abs) => {
                lemma_reduced_away(b, abs.body.0 as int, chain.push(BackingIndex(i as usize)), (fuel - 1) as nat, p);
            },
            DebruijnNode::Application(app) => {
                lemma_reduced_away(b, app.func.0 as int, chain, (fuel - 1) as nat, p);
                lemma_reduced_away(b, app.arg.0 as int, chain, (fuel - 1) as nat, p);
            },
        }
    }
}

/// What holds where a target is found in a tree: its view under the abstractions found above
/// it, which lie outside its subtree, and the edge that leads to it.
pub proof fn lemma_locate_facts(
    b: Seq<DebruijnNode>,
    i: int,
    edge: EdgeWithParent,
    chain: Seq<BackingIndex>,
    fuel: nat,
    target: int,
)
    requires
        b.len() <= usize::MAX,
        is_tree(b, i, fuel),
        node_view(b, i, chain, fuel) is Some,
        chain_avoids(chain, reach(b, i, fuel)),
        chain_in(chain, 0, b.len() as int),
        locate(b, i, edge, chain, fuel, target) is Some,
    ensures
        ({
            let (c, pe) = locate(b, i, edge, chain, fuel, target)->0;
            &&& is_tree(b, target, fuel)
            &&& node_view(b, target, c, fuel) is Some
            &&& forall|m: int| #[trigger] reach(b, target, fuel).contains(m) ==> reach(b, i, fuel).contains(m)
            &&& chain_avoids(c, reach(b, target, fuel))
            &&& chain_in(c, 0, b.len() as int)
            &&& c.len() + nest(b, target, fuel) <= chain.len() + nest(b, i, fuel)
            &&& (target == i ==> pe == edge && c == chain)
            &&& (target != i ==> !(pe is IntoRoot) && reach(b, i, fuel).contains((pe.parent_spec()->0).0 as int)
                && !reach(b, target, fuel).contains((pe.parent_spec()->0).0 as int)
                && edge_child(b, BackingIndex(0), pe) == Some(BackingIndex(target as usize)))
        }),
    decreases fuel,
{
    lemma_reach_basics(b, i, fuel);
    lemma_tree_within(b, i, fuel);
    if i == target {
        lemma_tree_fuel(b, i, fuel, fuel);
    } else {
        let me = BackingIndex(i as usize);
        match b[i] {
            DebruijnNode::Index(_) => {},
            DebruijnNode::Abstraction(abs) => {
                let c = abs.body.0 as int;
                let ch2 = chain.push(me);
                lemma_reach_basics(b, c, (fuel - 1) as nat);
                assert(chain_avoids(ch2, reach(b, c, (fuel - 1) as nat))) by {
                    assert forall|j: int| 0 <= j < ch2.len() implies !reach(b, c, (fuel - 1) as nat).contains(#[trigger] ch2[j].0 as int) by {
                        if j < chain.len() {
                            assert(ch2[j] == chain[j]);
                            assert(!reach(b, i, fuel).contains(chain[j].0 as int));
                        }
                    }
                }
                assert(chain_in(ch2, 0, b.len() as int)) by {
                    assert forall|j: int| 0 <= j < ch2.len() implies 0 <= #[trigger] ch2[j].0 < b.len() by {
                        if j < chain.len() { assert(ch2[j] == chain[j]); }
                    }
                }
                lemma_locate_facts(b, c, EdgeWithParent::AbsToBody(me), ch2, (fuel - 1) as nat, target);
                let (cc, pe) = locate(b, i, edge, chain, fuel, target)->0;
                lemma_tree_fuel(b, target, (fuel - 1) as nat, fuel);
                lemma_view_fuel(b, target, cc, (fuel - 1) as nat, fuel);
                lemma_tree_fuel(b, c, (fuel - 1) as nat, fuel);
                if target == c {
                    assert(edge_child(b, BackingIndex(0), pe) == Some(BackingIndex(target as usize)));
                }
            },
            DebruijnNode::Application(app) => {
                let f = app.func.0 as int;
                let a = app.arg.0 as int;
                lemma_reach_basics(b, f, (fuel - 1) as nat);
                lemma_reach_basics(b, a, (fuel - 1) as nat);
                assert(chain_avoids(chain, reach(b, f, (fuel - 1) as nat))) by {
                    assert forall|j: int| 0 <= j < chain.len() implies !reach(b, f, (fuel - 1) as nat).contains(#[trigger] chain[j].0 as int) by {
                        assert(!reach(b, i, fuel).contains(chain[j].0 as int));
                    }
                }
                assert(chain_avoids(chain, reach(b, a, (fuel - 1) as nat))) by {
                    assert forall|j: int| 0 <= j < chain.len() implies !reach(b, a, (fuel - 1) as nat).contains(#[trigger] chain[j].0 as int) by {
                        assert(!reach(b, i, fuel).contains(chain[j].0 as int));
                    }
                }
                let (cc, pe) = locate(b, i, edge, chain, fuel, target)->0;
                if locate(b, f, EdgeWithParent::AppToFunc(me), chain, (fuel - 1) as nat, target) is Some {
                    lemma_locate_facts(b, f, EdgeWithParent::AppToFunc(me), chain, (fuel - 1) as nat, target);
                    if target == f {
                        assert(edge_child(b, BackingIndex(0), pe) == Some(BackingIndex(target as usize)));
                    }
                } else {
                    lemma_locate_facts(b, a, EdgeWithParent::AppToArg(me), chain, (fuel - 1) as nat, target);
                    if target == a {
                        assert(edge_child(b, BackingIndex(0), pe) == Some(BackingIndex(target as usize)));
                    }
                }
                lemma_tree_fuel(b, target, (fuel - 1) as nat, fuel);
                lemma_view_fuel(b, target, cc, (fuel - 1) as nat, fuel);
                lemma_tree_fuel(b, f, (fuel - 1) as nat, fuel);
                lemma_tree_fuel(b, a, (fuel - 1) as nat, fuel);
            },
        }
    }
}

/// Replacing the subtree at `p` (reached from `i` by the edge `pe` under the abstractions `c`)
/// with a subtree whose view is the contracted redex gives the contracted view from `i`, and
/// keeps the nodes a tree.
pub proof fn lemma_outer(
    b0: Seq<DebruijnNode>,
    b: Seq<DebruijnNode>,
    i: int,
    edge: EdgeWithParent,
    chain: Seq<BackingIndex>,
    fuel: nat,
    p: int,
    new_body: BackingIndex,
    fr: nat,
)
    requires
        b0.len() <= usize::MAX,
        is_tree(b0, i, fuel),
        node_view(b0, i, chain, fuel) is Some,
        chain_avoids(chain, reach(b0, i, fuel)),
        chain_in(chain, 0, b0.len() as int),
        locate(b0, i, edge, chain, fuel, p) is Some,
        p != i,
        ({
            let (c, pe) = locate(b0, i, edge, chain, fuel, p)->0;
            let pp = (pe.parent_spec()->0).0 as int;
            &&& forall|k: int| #[trigger] reach(b0, i, fuel).contains(k) && !reach(b0, p, fuel).contains(k) && k != pp
                ==> k < b.len() && skel(b[k]) == skel(b0[k])
            &&& pp < b.len()
            &&& skel(b[pp]) == skel(set_edge(b0, pe, new_body)[pp])
            &&& reduced_view(b0, p, c, fuel, p) is Some
            &&& node_view(b, new_body.0 as int, c, fr) == reduced_view(b0, p, c, fuel, p)
            &&& is_tree(b, new_body.0 as int, fr)
            &&& forall|m: int| #[trigger] reach(b, new_body.0 as int, fr).contains(m) ==> !(reach(b0, i, fuel).contains(m)
                && !reach(b0, p, fuel).contains(m))
        }),
    ensures
        node_view(b, i, chain, fuel + fr) == reduced_view(b0, i, chain, fuel, p),
        reduced_view(b0, i, chain, fuel, p) is Some,
        is_tree(b, i, fuel + fr),
        forall|m: int| #[trigger] reach(b, i, fuel + fr).contains(m) ==> (reach(b0, i, fuel).contains(m)
            && !reach(b0, p, fuel).contains(m)) || reach(b, new_body.0 as int, fr).contains(m),
    decreases fuel,
{
    let (c, pe) = locate(b0, i, edge, chain, fuel, p)->0;
    let pp = (pe.parent_spec()->0).0 as int;
    let nb = new_body.0 as int;
    let fb = (fuel + fr - 1) as nat;
    lemma_reach_basics(b0, i, fuel);
    lemma_reach_basics(b, nb, fr);
    lemma_tree_within(b0, i, fuel);
    lemma_tree_within(b, nb, fr);
    lemma_locate_facts(b0, i, edge, chain, fuel, p);
    lemma_locate_reach(b0, i, edge, chain, fuel, p);
    let me = BackingIndex(i as usize);
    assert(reach(b0, i, fuel).contains(i));
    assert(me.0 as int == i);
    match b0[i] {
        DebruijnNode::Index(_) => {},
        DebruijnNode::Abstraction(abs) => {
            let cb = abs.body.0 as int;
            let ch2 = chain.push(me);
            let f1 = (fuel - 1) as nat;
            lemma_reach_basics(b0, cb, f1);
            assert(node_view(b0, cb, ch2, f1) is Some);
            assert(chain_avoids(ch2, reach(b0, cb, f1))) by {
                assert forall|j: int| 0 <= j < ch2.len() implies !reach(b0, cb, f1).contains(#[trigger] ch2[j].0 as int) by {
                    if j < chain.len() {
                        assert(ch2[j] == chain[j]);
                        assert(!reach(b0, i, fuel).contains(chain[j].0 as int));
                    }
                }
            }
            assert(chain_in(ch2, 0, b0.len() as int)) by {
                assert forall|j: int| 0 <= j < ch2.len() implies 0 <= #[trigger] ch2[j].0 < b0.len() by {
                    if j < chain.len() { assert(ch2[j] == chain[j]); }
                }
            }
            lemma_locate_reach(b0, cb, EdgeWithParent::AbsToBody(me), ch2, f1, p);
            if cb == p {
                assert(pp == i);
                assert(c == ch2);
                assert(node_view(b0, p, c, f1) is Some);
                lemma_view_fuel(b0, p, c, f1, fuel);
                assert(reduced_view(b0, p, c, f1, p) == reduced_view(b0, p, c, fuel, p));
                lemma_view_fuel(b, nb, c, fr, fb);
                lemma_tree_fuel(b, nb, fr, fb);
                assert(!reach(b, nb, fr).contains(i));
                assert(skel(b[i]) == skel(DebruijnNode::Abstraction(Abstraction { body: new_body, usage: abs.usage })));
            } else {
                lemma_locate_facts(b0, cb, EdgeWithParent::AbsToBody(me), ch2, f1, p);
                assert(locate(b0, cb, EdgeWithParent::AbsToBody(me), ch2, f1, p) == locate(b0, i, edge, chain, fuel, p));
                lemma_tree_fuel(b0, p, f1, fuel);
                assert(node_view(b0, p, c, f1) is Some);
                lemma_view_fuel(b0, p, c, f1, fuel);
                assert(reduced_view(b0, p, c, f1, p) == reduced_view(b0, p, c, fuel, p));
                assert(forall|k: int| #[trigger] reach(b0, cb, f1).contains(k) ==> reach(b0, i, fuel).contains(k));
                assert(!reach(b0, p, fuel).contains(i)) by {
                    if reach(b0, p, fuel).contains(i) {
                        assert(reach(b0, cb, f1).contains(i));
                    }
                }
                lemma_outer(b0, b, cb, EdgeWithParent::AbsToBody(me), ch2, f1, p, new_body, fr);
                assert(i != pp);
                assert(skel(b[i]) == skel(b0[i]));
                assert(!reach(b, cb, fb).contains(i));
            }
        },
        DebruijnNode::Application(app) => {
            let fi = app.func.0 as int;
            let ai = app.arg.0 as int;
            let f1 = (fuel - 1) as nat;
            lemma_reach_basics(b0, fi, f1);
            lemma_reach_basics(b0, ai, f1);
            assert(chain_avoids(chain, reach(b0, fi, f1))) by {
                assert forall|j: int| 0 <= j < chain.len() implies !reach(b0, fi, f1).contains(#[trigger] chain[j].0 as int) by {
                    assert(!reach(b0, i, fuel).contains(chain[j].0 as int));
                }
            }
            assert(chain_avoids(chain, reach(b0, ai, f1))) by {
                assert forall|j: int| 0 <= j < chain.len() implies !reach(b0, ai, f1).contains(#[trigger] chain[j].0 as int) by {
                    assert(!reach(b0, i, fuel).contains(chain[j].0 as int));
                }
            }
            let ef = EdgeWithParent::AppToFunc(me);
            let ea = EdgeWithParent::AppToArg(me);
            lemma_locate_reach(b0, fi, ef, chain, f1, p);
            lemma_locate_reach(b0, ai, ea, chain, f1, p);
            if reach(b0, fi, f1).contains(p) {
                // the redex is on the function side; the argument side is kept
                assert(!reach(b0, ai, f1).contains(p));
                lemma_locate_facts(b0, fi, ef, chain, f1, p);
                assert(locate(b0, fi, ef, chain, f1, p) == locate(b0, i, edge, chain, fuel, p));
                lemma_tree_fuel(b0, p, f1, fuel);
                assert forall|m: int| #[trigger] reach(b0, ai, f1).contains(m) implies 0 <= m < b.len() && skel(b[m]) == skel(b0[m]) by {
                    assert(reach(b0, i, fuel).contains(m));
                    assert(!reach(b0, fi, f1).contains(m));
                    assert(!reach(b0, p, fuel).contains(m)) by {
                        if reach(b0, p, fuel).contains(m) {
                            assert(reach(b0, fi, f1).contains(m));
                        }
                    }
                    assert(m != pp) by {
                        if fi != p {
                            assert(reach(b0, fi, f1).contains(pp));
                        }
                    }
                }
                lemma_tree_within(b0, ai, f1);
                lemma_reach_frame(b0, b, ai, f1);
                lemma_tree_fuel(b, ai, f1, fb);
                lemma_view_fuel(b, ai, chain, f1, fb);
                lemma_reduced_away(b0, ai, chain, f1, p);
                if fi == p {
                    assert(pp == i);
                    assert(c == chain);
                    lemma_view_fuel(b0, p, c, f1, fuel);
                    assert(reduced_view(b0, p, c, f1, p) == reduced_view(b0, p, c, fuel, p));
                    lemma_view_fuel(b, nb, c, fr, fb);
                    lemma_tree_fuel(b, nb, fr, fb);
                    assert(skel(b[i]) == skel(DebruijnNode::Application(Application { func: new_body, arg: app.arg })));
                    assert(reach(b, nb, fb).disjoint(reach(b, ai, fb))) by {
                        assert forall|m: int| reach(b, nb, fb).contains(m) implies !reach(b, ai, fb).contains(m) by {
                            if reach(b0, ai, f1).contains(m) {
                                assert(reach(b0, i, fuel).contains(m));
                                assert(!reach(b0, p, fuel).contains(m)) by {
                                    if reach(b0, p, fuel).contains(m) {
                                        assert(reach(b0, fi, f1).contains(m));
                                    }
                                }
                            }
                        }
                    }
                } else {
                    assert(node_view(b0, p, c, f1) is Some);
                    lemma_view_fuel(b0, p, c, f1, fuel);
                    assert(reduced_view(b0, p, c, f1, p) == reduced_view(b0, p, c, fuel, p));
                    assert(forall|k: int| #[trigger] reach(b0, fi, f1).contains(k) ==> reach(b0, i, fuel).contains(k));
                    lemma_outer(b0, b, fi, ef, chain, f1, p, new_body, fr);
                    assert(i != pp);
                    assert(skel(b[i]) == skel(b0[i]));
                    assert(reach(b, fi, fb).disjoint(reach(b, ai, fb))) by {
                        assert forall|m: int| reach(b, fi, fb).contains(m) implies !reach(b, ai, fb).contains(m) by {
                            if reach(b0, ai, f1).contains(m) {
                                assert(reach(b0, i, fuel).contains(m));
                                assert(!reach(b0, p, fuel).contains(m)) by {
                                    if reach(b0, p, fuel).contains(m) {
                                        assert(reach(b0, fi, f1).contains(m));
                                    }
                                }
                            }
                        }
                    }
                }
            } else {
                // the redex is on the argument side; the function side is kept
                assert(reach(b0, ai, f1).contains(p));
                assert(locate(b0, fi, ef, chain, f1, p) is None);
                lemma_locate_facts(b0, ai, ea, chain, f1, p);
                assert(locate(b0, ai, ea, chain, f1, p) == locate(b0, i, edge, chain, fuel, p));
                lemma_tree_fuel(b0, p, f1, fuel);
                assert forall|m: int| #[trigger] reach(b0, fi, f1).contains(m) implies 0 <= m < b.len() && skel(b[m]) == skel(b0[m]) by {
                    assert(reach(b0, i, fuel).contains(m));
                    assert(!reach(b0, ai, f1).contains(m));
                    assert(!reach(b0, p, fuel).contains(m)) by {
                        if reach(b0, p, fuel).contains(m) {
                            assert(reach(b0, ai, f1).contains(m));
                        }
                    }
                    assert(m != pp) by {
                        if ai != p {
                            assert(reach(b0, ai, f1).contains(pp));
                        }
                    }
                }
                lemma_tree_within(b0, fi, f1);
                lemma_reach_frame(b0, b, fi, f1);
                lemma_tree_fuel(b, fi, f1, fb);
                lemma_view_fuel(b, fi, chain, f1, fb);
                lemma_reduced_away(b0, fi, chain, f1, p);
                if ai == p {
                    assert(pp == i);
                    assert(c == chain);
                    lemma_view_fuel(b0, p, c, f1, fuel);
                    assert(reduced_view(b0, p, c, f1, p) == reduced_view(b0, p, c, fuel, p));
                    lemma_view_fuel(b, nb, c, fr, fb);
                    lemma_tree_fuel(b, nb, fr, fb);
                    assert(skel(b[i]) == skel(DebruijnNode::Application(Application { func: app.func, arg: new_body })));
                    assert(reach(b, fi, fb).disjoint(reach(b, nb, fb))) by {
                        assert forall|m: int| reach(b, fi, fb).contains(m) implies !reach(b, nb, fb).contains(m) by {
                            assert(reach(b0, i, fuel).contains(m));
                            assert(!reach(b0, p, fuel).contains(m)) by {
                                if reach(b0, p, fuel).contains(m) {
                                    assert(reach(b0, ai, f1).contains(m));
                                }
                            }
                        }
                    }
                } else {
                    assert(node_view(b0, p, c, f1) is Some);
                    lemma_view_fuel(b0, p, c, f1, fuel);
                    assert(reduced_view(b0, p, c, f1, p) == reduced_view(b0, p, c, fuel, p));
                    assert(forall|k: int| #[trigger] reach(b0, ai, f1).contains(k) ==> reach(b0, i, fuel).contains(k));
                    lemma_outer(b0, b, ai, ea, chain, f1, p, new_body, fr);
                    assert(i != pp);
                    assert(skel(b[i]) == skel(b0[i]));
                    assert(reach(b, fi, fb).disjoint(reach(b, ai, fb))) by {
                        assert forall|m: int| reach(b, fi, fb).contains(m) implies !reach(b, ai, fb).contains(m) by {
                            assert(reach(b0, i, fuel).contains(m));
                            assert(!reach(b0, p, fuel).contains(m)) by {
                                if reach(b0, p, fuel).contains(m) {
                                    assert(reach(b0, ai, f1).contains(m));
                                }
                            }
                        }
                    }
                }
            }
        },
    }
}

/// A redex listed from a tree is found where it was listed, under as many abstractions as it
/// records.
pub proof fn lemma_redex_located(
    b: Seq<DebruijnNode>,
    i: int,
    edge: EdgeWithParent,
    chain: Seq<BackingIndex>,
    fuel: nat,
    r: RedexMut,
)
    requires
        b.len() <= usize::MAX,
        chain.len() + nest(b, i, fuel) <= usize::MAX,
        is_tree(b, i, fuel),
        redexes_spec(b, i, edge, chain.len(), fuel).contains(r),
    ensures
        locate(b, i, edge, chain, fuel, r.app_index.0 as int) is Some,
        (locate(b, i, edge, chain, fuel, r.app_index.0 as int)->0).1 == r.parent_to_app,
        (locate(b, i, edge, chain, fuel, r.app_index.0 as int)->0).0.len() == r.debruijn_depth,
        redex_spec(b, r.debruijn_depth, r.parent_to_app, r.app_index) == Some(r),
    decreases fuel,
{
    lemma_reach_basics(b, i, fuel);
    let me = BackingIndex(i as usize);
    match b[i] {
        DebruijnNode::Index(_) => {},
        DebruijnNode::Abstraction(abs) => {
            let cb = abs.body.0 as int;
            let ch2 = chain.push(me);
            assert(ch2.len() == chain.len() + 1);
            lemma_redex_located(b, cb, EdgeWithParent::AbsToBody(me), ch2, (fuel - 1) as nat, r);
            lemma_locate_reach(b, cb, EdgeWithParent::AbsToBody(me), ch2, (fuel - 1) as nat, r.app_index.0 as int);
            assert(r.app_index.0 as int != i);
        },
        DebruijnNode::Application(app) => {
            let fi = app.func.0 as int;
            let ai = app.arg.0 as int;
            let here = match redex_spec(b, chain.len() as usize, edge, me) {
                Some(x) => seq![x],
                None => Seq::<RedexMut>::empty(),
            };
            let rf = redexes_spec(b, fi, EdgeWithParent::AppToFunc(me), chain.len(), (fuel - 1) as nat);
            let ra = redexes_spec(b, ai, EdgeWithParent::AppToArg(me), chain.len(), (fuel - 1) as nat);
            assert(redexes_spec(b, i, edge, chain.len(), fuel) == here + rf + ra);
            if here.contains(r) {
                assert(r == here[0]);
            } else if rf.contains(r) {
                lemma_redex_located(b, fi, EdgeWithParent::AppToFunc(me), chain, (fuel - 1) as nat, r);
                lemma_locate_reach(b, fi, EdgeWithParent::AppToFunc(me), chain, (fuel - 1) as nat, r.app_index.0 as int);
                assert(r.app_index.0 as int != i);
            } else {
                assert(ra.contains(r));
                lemma_redex_located(b, ai, EdgeWithParent::AppToArg(me), chain, (fuel - 1) as nat, r);
                lemma_locate_reach(b, ai, EdgeWithParent::AppToArg(me), chain, (fuel - 1) as nat, r.app_index.0 as int);
                lemma_locate_reach(b, fi, EdgeWithParent::AppToFunc(me), chain, (fuel - 1) as nat, r.app_index.0 as int);
                assert(r.app_index.0 as int != i);
            }
        },
    }
}

/// With no variable bound to `f` in the subtree, dropping `f` from the enclosing abstractions
/// gives the contracted view.
pub proof fn lemma_subst_none(
    b: Seq<DebruijnNode>,
    i: int,
    c: Seq<BackingIndex>,
    f: BackingIndex,
    d: Seq<BackingIndex>,
    fuel: nat,
    ta: Debruijn,
)
    requires
        b.len() <= usize::MAX,
        c.len() + 1 + d.len() + nest(b, i, fuel) <= usize::MAX,
        is_tree(b, i, fuel),
        bound_count(b, f, i, fuel) == 0,
        node_view(b, i, c.push(f) + d, fuel) is Some,
        !c.contains(f),
        !d.contains(f),
        chains_disjoint(d, c),
        chain_avoids(c.push(f) + d, reach(b, i, fuel)),
    ensures
        node_view(b, i, c + d, fuel) == Some(subst_down(node_view(b, i, c.push(f) + d, fuel)->0, ta, d.len() + 1)),
    decreases fuel,
{
    lemma_reach_basics(b, i, fuel);
    let me = BackingIndex(i as usize);
    assert(reach(b, i, fuel).contains(i));
    match b[i] {
        DebruijnNode::Index(binding) => {
            if let Binding::Bound(x) = binding {
                lemma_drop_binder(c, f, d, x);
                lemma_chain_pos_found(c, x);
                lemma_chain_pos_found(d, x);
            }
        },
        DebruijnNode::Abstraction(abs) => {
            let cb = abs.body.0 as int;
            let d2 = d.push(me);
            let all = c.push(f) + d;
            lemma_reach_basics(b, cb, (fuel - 1) as nat);
            assert(all.push(me) =~= c.push(f) + d2);
            assert((c + d).push(me) =~= c + d2);
            assert(me.0 as int == i);
            assert(!d2.contains(f)) by {
                assert(all[c.len() as int] == f);
                assert(!reach(b, i, fuel).contains(f.0 as int));
                assert forall|j: int| 0 <= j < d2.len() implies d2[j] != f by {
                    if j < d.len() { assert(d2[j] == d[j]); }
                }
            }
            assert(chains_disjoint(d2, c)) by {
                assert forall|j: int, k: int| 0 <= j < d2.len() && 0 <= k < c.len() implies d2[j] != c[k] by {
                    if j < d.len() {
                        assert(d2[j] == d[j]);
                    } else {
                        assert(all[k] == c[k]);
                        assert(!reach(b, i, fuel).contains(c[k].0 as int));
                    }
                }
            }
            assert(chain_avoids(c.push(f) + d2, reach(b, cb, (fuel - 1) as nat))) by {
                let cb2 = c.push(f) + d2;
                assert forall|j: int| 0 <= j < cb2.len() implies !reach(b, cb, (fuel - 1) as nat).contains(#[trigger] cb2[j].0 as int) by {
                    if j < all.len() {
                        assert(cb2[j] == all[j]);
                        assert(!reach(b, i, fuel).contains(all[j].0 as int));
                    }
                }
            }
            lemma_subst_none(b, cb, c, f, d2, (fuel - 1) as nat, ta);
        },
        DebruijnNode::Application(app) => {
            let fi = app.func.0 as int;
            let ai = app.arg.0 as int;
            let all = c.push(f) + d;
            lemma_reach_basics(b, fi, (fuel - 1) as nat);
            lemma_reach_basics(b, ai, (fuel - 1) as nat);
            assert(chain_avoids(all, reach(b, fi, (fuel - 1) as nat))) by {
                assert forall|j: int| 0 <= j < all.len() implies !reach(b, fi, (fuel - 1) as nat).contains(#[trigger] all[j].0 as int) by {
                    assert(!reach(b, i, fuel).contains(all[j].0 as int));
                }
            }
            assert(chain_avoids(all, reach(b, ai, (fuel - 1) as nat))) by {
                assert forall|j: int| 0 <= j < all.len() implies !reach(b, ai, (fuel - 1) as nat).contains(#[trigger] all[j].0 as int) by {
                    assert(!reach(b, i, fuel).contains(all[j].0 as int));
                }
            }
            lemma_subst_none(b, fi, c, f, d, (fuel - 1) as nat, ta);
            lemma_subst_none(b, ai, c, f, d, (fuel - 1) as nat, ta);
        },
    }
}


/// Every element of `c` is the position of an abstraction.
pub open spec fn chain_abs(b: Seq<DebruijnNode>, c: Seq<BackingIndex>) -> bool {
    forall|j: int| #![trigger c[j]] 0 <= j < c.len() ==> 0 <= c[j].0 < b.len() && b[c[j].0 as int] is Abstraction
}

/// The abstractions found above a target are abstractions.
pub proof fn lemma_locate_abs(
    b: Seq<DebruijnNode>,
    i: int,
    edge: EdgeWithParent,
    chain: Seq<BackingIndex>,
    fuel: nat,
    target: int,
)
    requires
        b.len() <= usize::MAX,
        chain_abs(b, chain),
        locate(b, i, edge, chain, fuel, target) is Some,
    ensures
        chain_abs(b, (locate(b, i, edge, chain, fuel, target)->0).0),
    decreases fuel,
{
    if i != target {
        assert(fuel > 0 && 0 <= i < b.len());
        let me = BackingIndex(i as usize);
        match b[i] {
            DebruijnNode::Index(_) => {},
            DebruijnNode::Abstraction(abs) => {
                let ch2 = chain.push(me);
                assert(chain_abs(b, ch2)) by {
                    assert forall|j: int| #![trigger ch2[j]] 0 <= j < ch2.len() implies 0 <= ch2[j].0 < b.len() && b[ch2[j].0 as int] is Abstraction by {
                        if j < chain.len() {
                            assert(ch2[j] == chain[j]);
                        } else {
                            assert(ch2[j] == me);
                        }
                    }
                }
                lemma_locate_abs(b, abs.body.0 as int, EdgeWithParent::AbsToBody(me), ch2, (fuel - 1) as nat, target);
            },
            DebruijnNode::Application(app) => {
                if locate(b, app.func.0 as int, EdgeWithParent::AppToFunc(me), chain, (fuel - 1) as nat, target) is Some {
                    lemma_locate_abs(b, app.func.0 as int, EdgeWithParent::AppToFunc(me), chain, (fuel - 1) as nat, target);
                } else {
                    lemma_locate_abs(b, app.arg.0 as int, EdgeWithParent::AppToArg(me), chain, (fuel - 1) as nat, target);
                }
            },
        }
    }
}

/// For each abstraction of `c`, its usage after `bu - 1` more uses per variable bound to it in
/// the subtree at `a` lies in `usize`.
pub open spec fn usages_fit(b: Seq<DebruijnNode>, c: Seq<BackingIndex>, bu: usize, a: int, fuel: nat) -> bool {
    forall|j: int| #![trigger c[j]] 0 <= j < c.len() ==> 0 <= b[c[j].0 as int]->Abstraction_0.usage + (bu - 1) * bound_count(b, c[j], a, fuel) <= usize::MAX
}

/// A change by `d >= -1` per item that stays in range over `x + y` items stays in range over
/// the first `x` and then over the other `y`.
proof fn lemma_fit_part(u: int, d: int, x: int, y: int)
    requires
        0 <= u <= usize::MAX,
        d >= -1,
        x >= 0,
        y >= 0,
        0 <= u + d * (x + y) <= usize::MAX,
    ensures
        0 <= u + d * x <= usize::MAX,
        u + d * x + d * y == u + d * (x + y),
{
    assert(d * (x + y) == d * x + d * y) by (nonlinear_arith);
    if d >= 0 {
        assert(d * x >= 0 && d * y >= 0) by (nonlinear_arith)
            requires
                d >= 0,
                x >= 0,
                y >= 0,
        ;
    } else {
        assert(d * x == -x && d * y == -y) by (nonlinear_arith)
            requires
                d == -1,
        ;
    }
}

/// Adds `bu - 1` to the usage of the abstraction that each variable reached from `index` is
/// bound to, other than those bound to the abstractions of `inner`, found on the way down.
#[verifier::spinoff_prover]
fn adjust_usages_at(
    tree: &mut FlatTree,
    inner: &mut Vec<BackingIndex>,
    index: BackingIndex,
    bu: usize,
    Ghost(fuel): Ghost<nat>,
    Ghost(c): Ghost<Seq<BackingIndex>>,
)
    requires
        ({
            let b = old(tree).backing@;
            let i = index.0 as int;
            &&& is_tree(b, i, fuel)
            &&& node_view(b, i, c + old(inner)@, fuel) is Some
            &&& chain_avoids(c, reach(b, i, fuel))
            &&& chains_disjoint(old(inner)@, c)
            &&& chain_abs(b, c)
            &&& usages_fit(b, c, bu, i, fuel)
        }),
    ensures
        ({
            let b0 = old(tree).backing@;
            let b = final(tree).backing@;
            let i = index.0 as int;
            &&& final(inner)@ == old(inner)@
            &&& final(tree).root == old(tree).root
            &&& b.len() == b0.len()
            &&& forall|k: int| 0 <= k < b.len() ==> skel(#[trigger] b[k]) == skel(b0[k])
            &&& forall|k: int| 0 <= k < b.len() && !c.contains(BackingIndex(k as usize)) ==> #[trigger] b[k] == b0[k]
            &&& forall|j: int| #![trigger c[j]] 0 <= j < c.len() ==> b[c[j].0 as int]->Abstraction_0.usage
                == b0[c[j].0 as int]->Abstraction_0.usage + (bu - 1) * bound_count(b0, c[j], i, fuel)
        }),
    decreases fuel,
{
    let ghost b0 = tree.backing@;
    let ghost i = index.0 as int;
    let ghost inner0 = inner@;
    proof {
        lemma_reach_basics(b0, i, fuel);
        lemma_tree_within(b0, i, fuel);
    }
    match tree.node(index) {
        DebruijnNode::Index(binding) => {
            if let Binding::Bound(y) = binding {
                let mut p: usize = 0;
                while p < inner.len() && inner[p] != y
                    invariant
                        p <= inner@.len(),
                        forall|j: int| 0 <= j < p ==> inner@[j] != y,
                    decreases inner@.len() - p,
                {
                    p = p + 1;
                }
                if p == inner.len() {
                    proof {
                        lemma_chain_pos(inner0, y, p as int);
                        lemma_chain_pos_append(c, inner0, y);
                        lemma_chain_pos_found(c, y);
                        let j0 = chain_pos(c, y);
                        assert(c[j0] == y);
                        assert(bound_count(b0, c[j0], i, fuel) == 1);
                    }
                    let abs = tree.get_abs(y);
                    let usage = if bu == 0 {
                        abs.usage - 1
                    } else {
                        abs.usage + (bu - 1)
                    };
                    tree.set_node(y, DebruijnNode::abs(abs.body, usage));
                    proof {
                        let b = tree.backing@;
                        assert forall|k: int| 0 <= k < b.len() && !c.contains(BackingIndex(k as usize)) implies #[trigger] b[k] == b0[k] by {
                            if k == y.0 {
                                assert(c[chain_pos(c, y)] == BackingIndex(k as usize));
                            }
                        }
                        assert forall|j: int| #![trigger c[j]] 0 <= j < c.len() implies b[c[j].0 as int]->Abstraction_0.usage
                            == b0[c[j].0 as int]->Abstraction_0.usage + (bu - 1) * bound_count(b0, c[j], i, fuel) by {
                            if c[j] != y {
                                assert(bound_count(b0, c[j], i, fuel) == 0);
                            } else {
                                assert(bound_count(b0, c[j], i, fuel) == 1);
                                assert(b[c[j].0 as int] == DebruijnNode::Abstraction(Abstraction { body: abs.body, usage }));
                                assert(b0[c[j].0 as int] == DebruijnNode::Abstraction(abs));
                            }
                        }
                    }
                } else {
                    proof {
                        assert(inner0[p as int] == y);
                        assert forall|j: int| #![trigger c[j]] 0 <= j < c.len() implies bound_count(b0, c[j], i, fuel) == 0 by {
                            assert(inner0[p as int] != c[j]);
                        }
                    }
                }
            }
        },
        DebruijnNode::Abstraction(abs) => {
            let ghost cb = abs.body.0 as int;
            inner.push(index);
            proof {
                lemma_reach_basics(b0, cb, (fuel - 1) as nat);
                assert((c + inner0).push(index) =~= c + inner@);
                assert(index == BackingIndex(i as usize));
                assert forall|j: int| 0 <= j < c.len() implies !reach(b0, cb, (fuel - 1) as nat).contains(#[trigger] c[j].0 as int) by {
                    assert(!reach(b0, i, fuel).contains(c[j].0 as int));
                }
                assert forall|j: int, k: int| 0 <= j < inner@.len() && 0 <= k < c.len() implies inner@[j] != c[k] by {
                    if j < inner0.len() {
                        assert(inner@[j] == inner0[j]);
                    } else {
                        assert(!reach(b0, i, fuel).contains(c[k].0 as int));
                    }
                }
                assert forall|j: int| #![trigger c[j]] 0 <= j < c.len() implies bound_count(b0, c[j], cb, (fuel - 1) as nat)
                    == bound_count(b0, c[j], i, fuel) by {}
            }
            adjust_usages_at(tree, inner, abs.body, bu, Ghost((fuel - 1) as nat), Ghost(c));
            let _ = inner.pop();
            proof {
                assert(inner@ =~= inner0);
                assert forall|j: int| #![trigger c[j]] 0 <= j < c.len() implies bound_count(b0, c[j], cb, (fuel - 1) as nat)
                    == bound_count(b0, c[j], i, fuel) by {}
            }
        },
        DebruijnNode::Application(app) => {
            let ghost f = app.func.0 as int;
            let ghost a = app.arg.0 as int;
            proof {
                lemma_reach_basics(b0, f, (fuel - 1) as nat);
                lemma_reach_basics(b0, a, (fuel - 1) as nat);
                assert forall|j: int| 0 <= j < c.len() implies !reach(b0, f, (fuel - 1) as nat).contains(#[trigger] c[j].0 as int) by {
                    assert(!reach(b0, i, fuel).contains(c[j].0 as int));
                }
                assert forall|j: int| 0 <= j < c.len() implies !reach(b0, a, (fuel - 1) as nat).contains(#[trigger] c[j].0 as int) by {
                    assert(!reach(b0, i, fuel).contains(c[j].0 as int));
                }
                assert forall|j: int| #![trigger c[j]] 0 <= j < c.len() implies 0 <= b0[c[j].0 as int]->Abstraction_0.usage
                    + (bu - 1) * bound_count(b0, c[j], f, (fuel - 1) as nat) <= usize::MAX by {
                    lemma_fit_part(
                        b0[c[j].0 as int]->Abstraction_0.usage as int,
                        bu - 1,
                        bound_count(b0, c[j], f, (fuel - 1) as nat) as int,
                        bound_count(b0, c[j], a, (fuel - 1) as nat) as int,
                    );
                }
            }
            adjust_usages_at(tree, inner, app.func, bu, Ghost((fuel - 1) as nat), Ghost(c));
            let ghost b1 = tree.backing@;
            proof {
                lemma_tree_within(b0, a, (fuel - 1) as nat);
                lemma_reach_frame(b0, b1, a, (fuel - 1) as nat);
                assert forall|j: int| #![trigger c[j]] 0 <= j < c.len() implies 0 <= c[j].0 < b1.len() && b1[c[j].0 as int] is Abstraction by {
                    assert(skel(b1[c[j].0 as int]) == skel(b0[c[j].0 as int]));
                }
                assert forall|j: int| #![trigger c[j]] 0 <= j < c.len() implies 0 <= b1[c[j].0 as int]->Abstraction_0.usage
                    + (bu - 1) * bound_count(b1, c[j], a, (fuel - 1) as nat) <= usize::MAX by {
                    lemma_fit_part(
                        b0[c[j].0 as int]->Abstraction_0.usage as int,
                        bu - 1,
                        bound_count(b0, c[j], f, (fuel - 1) as nat) as int,
                        bound_count(b0, c[j], a, (fuel - 1) as nat) as int,
                    );
                }
            }
            adjust_usages_at(tree, inner, app.arg, bu, Ghost((fuel - 1) as nat), Ghost(c));
            proof {
                let b = tree.backing@;
                assert forall|k: int| 0 <= k < b.len() implies skel(#[trigger] b[k]) == skel(b0[k]) by {
                    assert(skel(b1[k]) == skel(b0[k]));
                }
                assert forall|k: int| 0 <= k < b.len() && !c.contains(BackingIndex(k as usize)) implies #[trigger] b[k] == b0[k] by {
                    assert(b1[k] == b0[k]);
                    assert(b[k] == b1[k]);
                }
                assert forall|j: int| #![trigger c[j]] 0 <= j < c.len() implies b[c[j].0 as int]->Abstraction_0.usage
                    == b0[c[j].0 as int]->Abstraction_0.usage + (bu - 1) * bound_count(b0, c[j], i, fuel) by {
                    lemma_fit_part(
                        b0[c[j].0 as int]->Abstraction_0.usage as int,
                        bu - 1,
                        bound_count(b0, c[j], f, (fuel - 1) as nat) as int,
                        bound_count(b0, c[j], a, (fuel - 1) as nat) as int,
                    );
                }
            }
        },
    }
}

/// Updates the usages of the abstractions `c` above a redex for the copies of its argument
/// that contracting it makes: each gains `body_usage - 1` uses per variable of the argument
/// bound to it. Nothing else changes.
fn update_usages(tree: &mut FlatTree, redex: &RedexMut, Ghost(fuel): Ghost<nat>, Ghost(c): Ghost<Seq<BackingIndex>>)
    requires
        ({
            let b = old(tree).backing@;
            let a = redex.arg_index.0 as int;
            &&& is_tree(b, a, fuel)
            &&& node_view(b, a, c, fuel) is Some
            &&& chain_avoids(c, reach(b, a, fuel))
            &&& chain_abs(b, c)
            &&& usages_fit(b, c, redex.body_usage, a, fuel)
        }),
    ensures
        ({
            let b0 = old(tree).backing@;
            let b = final(tree).backing@;
            let a = redex.arg_index.0 as int;
            &&& final(tree).root == old(tree).root
            &&& b.len() == b0.len()
            &&& forall|k: int| 0 <= k < b.len() ==> skel(#[trigger] b[k]) == skel(b0[k])
            &&& forall|k: int| 0 <= k < b.len() && !c.contains(BackingIndex(k as usize)) ==> #[trigger] b[k] == b0[k]
            &&& forall|j: int| #![trigger c[j]] 0 <= j < c.len() ==> b[c[j].0 as int]->Abstraction_0.usage
                == b0[c[j].0 as int]->Abstraction_0.usage + (redex.body_usage - 1) * bound_count(b0, c[j], a, fuel)
        }),
{
    let mut inner: Vec<BackingIndex> = Vec::new();
    proof {
        assert(c + inner@ =~= c);
    }
    adjust_usages_at(tree, &mut inner, redex.arg_index, redex.body_usage, Ghost(fuel), Ghost(c));
}


/// Contracts a redex inside its abstraction: replaces each variable of the body bound to the
/// abstraction by the argument (the last one by the argument itself, the others by copies)
/// and returns the position where the body now starts.
#[verifier::rlimit(100)]
#[verifier::spinoff_prover]
fn substitute(tree: &mut FlatTree, redex: &RedexMut, Ghost(fuel): Ghost<nat>, Ghost(c): Ghost<Seq<BackingIndex>>) -> (new_body: BackingIndex)
    requires
        ({
            let b = old(tree).backing@;
            let f = redex.func_index;
            let i = redex.body_index.0 as int;
            let a = redex.arg_index.0 as int;
            let fb = (fuel - 2) as nat;
            let fa = (fuel - 1) as nat;
            let ta = node_view(b, a, c, fa)->0;
            &&& fuel >= 3
            &&& 0 <= f.0 < b.len()
            &&& b[f.0 as int] is Abstraction
            &&& b[f.0 as int]->Abstraction_0.body == redex.body_index
            &&& node_view(b, a, c, fa) is Some
            &&& subst_env(b, f, redex.arg_index, fa, c, ta, b.len() as int)
            &&& is_tree(b, i, fb)
            &&& node_view(b, i, c.push(f), fb) is Some
            &&& !reach(b, i, fb).contains(f.0 as int)
            &&& !reach(b, a, fa).contains(f.0 as int)
            &&& chain_avoids(c.push(f), reach(b, i, fb))
            &&& reach(b, i, fb).disjoint(reach(b, a, fa))
            &&& redex.body_usage == bound_count(b, f, i, fb)
            &&& b.len() + redex.body_usage * reach_size(b, a, fa) <= usize::MAX
            &&& c.len() + 1 + nest(b, i, fb) + nest(b, a, fa) <= usize::MAX
            &&& subst_fits(node_view(b, i, c.push(f), fb)->0, ta, 1)
        }),
    ensures
        ({
            let b0 = old(tree).backing@;
            let b = final(tree).backing@;
            let f = redex.func_index;
            let i = redex.body_index.0 as int;
            let a = redex.arg_index.0 as int;
            let fb = (fuel - 2) as nat;
            let fa = (fuel - 1) as nat;
            let fr = (fb + fa) as nat;
            &&& final(tree).root == old(tree).root
            &&& b0.len() <= b.len()
            &&& is_tree(b, new_body.0 as int, fr)
            &&& node_view(b, new_body.0 as int, c, fr) == Some(
                subst_down(node_view(b0, i, c.push(f), fb)->0, node_view(b0, a, c, fa)->0, 1),
            )
            &&& forall|m: int| #[trigger] reach(b, new_body.0 as int, fr).contains(m) ==> reach(b0, i, fb).contains(m)
                || (b0.len() <= m < b.len()) || reach(b0, a, fa).contains(m)
            &&& forall|k: int| 0 <= k < b0.len() && !reach(b0, i, fb).contains(k) && k != f.0 ==> #[trigger] b[k] == b0[k]
        }),
{
    let ghost b0 = tree.backing@;
    let ghost f = redex.func_index;
    let ghost i = redex.body_index.0 as int;
    let ghost a = redex.arg_index.0 as int;
    let ghost fb = (fuel - 2) as nat;
    let ghost fa = (fuel - 1) as nat;
    let ghost fr = (fb + fa) as nat;
    let ghost ta = node_view(b0, a, c, fa)->0;
    proof {
        assert(c.push(f) + Seq::<BackingIndex>::empty() =~= c.push(f));
        assert(c + Seq::<BackingIndex>::empty() =~= c);
        lemma_reach_basics(b0, i, fb);
        lemma_tree_within(b0, i, fb);
    }
    if redex.body_usage == 0 {
        proof {
            lemma_subst_none(b0, i, c, f, Seq::empty(), fb, ta);
            lemma_view_fuel(b0, i, c, fb, fr);
            lemma_tree_fuel(b0, i, fb, fr);
        }
        redex.body_index
    } else {
        let mut counter: usize = 0;
        proof {
            assert(edge_child(b0, tree.root, EdgeWithParent::AbsToBody(f)) == Some(redex.body_index));
            lemma_within_reach(b0, i, 0, b0.len() as int, fb);
        }
        substitute_at(
            tree,
            &mut counter,
            redex.func_index,
            redex.arg_index,
            redex.body_usage,
            redex.body_index,
            EdgeWithParent::AbsToBody(redex.func_index),
            Ghost(fb),
            Ghost(c),
            Ghost(Seq::empty()),
            Ghost(fa),
            Ghost(ta),
            Ghost(b0.len() as int),
        );
        let new_body = tree.get_abs(redex.func_index).body;
        proof {
            let b = tree.backing@;
            assert(counter == redex.body_usage);
            assert(b[f.0 as int] == set_edge(b0, EdgeWithParent::AbsToBody(f), new_body)[f.0 as int]);
        }
        new_body
    }
}

impl FlatTree {
    /// The abstractions above the application of `r`, outermost first, and the edge that leads
    /// to it.
    pub open spec fn redex_place(&self, r: RedexMut) -> (Seq<BackingIndex>, EdgeWithParent) {
        locate(
            self.backing@,
            self.root.0 as int,
            EdgeWithParent::IntoRoot,
            Seq::empty(),
            self.tree_fuel(),
            r.app_index.0 as int,
        )->0
    }

    /// The term at the application of `r`.
    pub open spec fn redex_term(&self, r: RedexMut) -> Debruijn {
        node_view(self.backing@, r.app_index.0 as int, self.redex_place(r).0, self.tree_fuel())->0
    }

    /// `r` is one of the redexes of the tree, as `get_redexes` lists them.
    pub open spec fn lists_redex(&self, r: RedexMut) -> bool {
        redexes_spec(self.backing@, self.root.0 as int, EdgeWithParent::IntoRoot, 0, self.tree_fuel()).contains(r)
    }

    /// The term with the redex `r` contracted.
    pub open spec fn reduced(&self, r: RedexMut) -> Debruijn {
        reduced_view(self.backing@, self.root.0 as int, Seq::empty(), self.tree_fuel(), r.app_index.0 as int)->0
    }
}

/// Contracting `t`, an application of an abstraction, gives indices that fit in `usize`.
pub open spec fn contraction_fits(t: Debruijn) -> bool {
    match t {
        Debruijn::Application { func, arg } => match *func {
            Debruijn::Abstraction { body } => subst_fits(*body, *arg, 1),
            _ => true,
        },
        _ => true,
    }
}

/// Contracts the redex `redex` in place: the edge that led to its application now leads to the
/// body of its abstraction, in which each variable bound to the abstraction was replaced by
/// the argument; the application and the abstraction are left behind as garbage. The usages of
/// the abstractions above the redex are updated for the copies of the argument.
#[verifier::rlimit(100)]
#[verifier::spinoff_prover]
pub fn beta_reduce(tree: &mut FlatTree, redex: RedexMut)
    requires
        old(tree).well_formed(),
        old(tree).lists_redex(redex),
        ({
            let b = old(tree).backing@;
            let fuel = old(tree).tree_fuel();
            let a = redex.arg_index.0 as int;
            &&& redex.body_usage == bound_count(b, redex.func_index, redex.body_index.0 as int, fuel)
            &&& usages_fit(b, old(tree).redex_place(redex).0, redex.body_usage, a, fuel)
            &&& b.len() + redex.body_usage * reach_size(b, a, fuel) <= usize::MAX
            &&& 2 * nest(b, old(tree).root.0 as int, fuel) <= usize::MAX
        }),
        contraction_fits(old(tree).redex_term(redex)),
    ensures
        final(tree).well_formed(),
        final(tree).term() == old(tree).reduced(redex),
        ({
            let c = old(tree).redex_place(redex).0;
            let b0 = old(tree).backing@;
            let b = final(tree).backing@;
            forall|j: int|
                #![trigger c[j]]
                0 <= j < c.len() ==> b[c[j].0 as int] is Abstraction && b[c[j].0 as int]->Abstraction_0.usage
                    == b0[c[j].0 as int]->Abstraction_0.usage + (redex.body_usage - 1) * bound_count(
                    b0,
                    c[j],
                    redex.arg_index.0 as int,
                    old(tree).tree_fuel(),
                )
        }),
        ({
            let c = old(tree).redex_place(redex).0;
            let pe = old(tree).redex_place(redex).1;
            let b0 = old(tree).backing@;
            let b = final(tree).backing@;
            &&& b0.len() <= b.len()
            &&& forall|k: int|
                0 <= k < b0.len() && !reach(b0, redex.app_index.0 as int, old(tree).tree_fuel()).contains(k) && !c.contains(
                    BackingIndex(k as usize),
                ) && pe.parent_spec() != Some(BackingIndex(k as usize)) ==> #[trigger] b[k] == b0[k]
        }),
{
    let ghost b0 = tree.backing@;
    let ghost r0 = tree.root.0 as int;
    let ghost fuel = tree.tree_fuel();
    let ghost p = redex.app_index.0 as int;
    let ghost fi = redex.func_index.0 as int;
    let ghost bi = redex.body_index.0 as int;
    let ghost ai = redex.arg_index.0 as int;
    let ghost f1 = (fuel - 1) as nat;
    let ghost f2 = (fuel - 2) as nat;
    let ghost c = tree.redex_place(redex).0;
    let ghost pe = tree.redex_place(redex).1;
    let ghost pp = (pe.parent_spec()->0).0 as int;
    proof {
        assert(is_tree(b0, r0, fuel) && node_view(b0, r0, Seq::empty(), fuel) is Some);
        lemma_view_counts(b0, r0, Seq::empty(), fuel);
        lemma_redex_located(b0, r0, EdgeWithParent::IntoRoot, Seq::empty(), fuel, redex);
        lemma_locate_facts(b0, r0, EdgeWithParent::IntoRoot, Seq::empty(), fuel, p);
        lemma_locate_abs(b0, r0, EdgeWithParent::IntoRoot, Seq::empty(), fuel, p);
        lemma_reach_basics(b0, r0, fuel);
        lemma_reach_basics(b0, p, fuel);
        lemma_reach_basics(b0, fi, f1);
        lemma_reach_basics(b0, ai, f1);
        lemma_reach_basics(b0, bi, f2);
        assert(redex_at(b0, p));
        assert(is_tree(b0, p, fuel));
        assert(b0[p] == DebruijnNode::Application(Application { func: redex.func_index, arg: redex.arg_index }));
        assert(b0[fi] == DebruijnNode::Abstraction(Abstraction { body: redex.body_index, usage: redex.body_usage }));
        assert(is_tree(b0, fi, f1));
        assert(is_tree(b0, bi, f2));
        assert(fuel >= 3);
        assert(is_tree(b0, ai, f1));
        lemma_tree_within(b0, p, fuel);
        lemma_tree_within(b0, bi, f2);
        lemma_tree_within(b0, ai, f1);
        lemma_tree_fuel(b0, bi, f2, fuel);
        lemma_tree_fuel(b0, ai, f1, fuel);
        assert(!c.contains(redex.func_index)) by {
            if c.contains(redex.func_index) {
                let j = choose|j: int| 0 <= j < c.len() && c[j] == redex.func_index;
                assert(!reach(b0, p, fuel).contains(c[j].0 as int));
            }
        }
        assert forall|j: int| 0 <= j < c.len() implies !reach(b0, ai, f1).contains(#[trigger] c[j].0 as int) by {
            assert(!reach(b0, p, fuel).contains(c[j].0 as int));
        }
        assert forall|j: int| #![trigger c[j]] 0 <= j < c.len() implies bound_count(b0, c[j], ai, f1) == bound_count(b0, c[j], ai, fuel) by {}
        assert(node_view(b0, p, c, fuel) is Some);
        assert(node_view(b0, fi, c, f1) is Some);
        assert(node_view(b0, fi, c, f1) == Some(Debruijn::Abstraction { body: Box::new(node_view(b0, bi, c.push(redex.func_index), f2)->0) }));
        assert(node_view(b0, p, c, fuel) == Some(Debruijn::Application {
            func: Box::new(Debruijn::Abstraction { body: Box::new(node_view(b0, bi, c.push(redex.func_index), f2)->0) }),
            arg: Box::new(node_view(b0, ai, c, f1)->0),
        }));
        assert(subst_fits(node_view(b0, bi, c.push(redex.func_index), f2)->0, node_view(b0, ai, c, f1)->0, 1));
    }
    update_usages(tree, &redex, Ghost(f1), Ghost(c));
    let ghost b1 = tree.backing@;
    proof {
        assert forall|k: int| 0 <= k < b0.len() implies 0 <= k < b1.len() && skel(#[trigger] b1[k]) == skel(b0[k]) by {}
        assert forall|k: int| reach(b0, r0, fuel).contains(k) implies 0 <= k < b1.len() && skel(#[trigger] b1[k]) == skel(b0[k]) by {}
        assert forall|k: int| reach(b0, bi, f2).contains(k) implies 0 <= k < b1.len() && skel(#[trigger] b1[k]) == skel(b0[k]) by {}
        assert forall|k: int| reach(b0, ai, f1).contains(k) implies 0 <= k < b1.len() && skel(#[trigger] b1[k]) == skel(b0[k]) by {}
        lemma_reach_frame(b0, b1, bi, f2);
        lemma_reach_frame(b0, b1, ai, f1);
        lemma_nest_frame(b0, b1, bi, f2);
        lemma_nest_frame(b0, b1, ai, f1);
        assert(b1[fi] == b0[fi]);
        assert(nest(b0, fi, f1) == 1 + nest(b0, bi, f2));
        assert(nest(b0, p, fuel) >= 1 + nest(b0, bi, f2));
        assert(nest(b0, p, fuel) >= nest(b0, ai, f1));
        let f = redex.func_index;
        let ta = node_view(b1, ai, c, f1)->0;
        assert(0 <= fi < b1.len() && b1[fi] is Abstraction && b1[fi]->Abstraction_0.body == redex.body_index);
        assert(node_view(b1, ai, c, f1) is Some);
        assert(chain_avoids(c, reach(b1, ai, f1)));
        assert(subst_env(b1, f, redex.arg_index, f1, c, ta, b1.len() as int));
        assert(is_tree(b1, bi, f2));
        assert(node_view(b1, bi, c.push(f), f2) is Some);
        assert(!reach(b1, bi, f2).contains(fi));
        assert(!reach(b1, ai, f1).contains(fi));
        assert(chain_avoids(c.push(f), reach(b1, bi, f2))) by {
            assert forall|j: int| 0 <= j < c.push(f).len() implies !reach(b1, bi, f2).contains(#[trigger] c.push(f)[j].0 as int) by {
                if j < c.len() {
                    assert(c.push(f)[j] == c[j]);
                    assert(!reach(b0, p, fuel).contains(c[j].0 as int));
                }
            }
        }
        assert(reach(b1, bi, f2).disjoint(reach(b1, ai, f1)));
        assert(redex.body_usage == bound_count(b1, f, bi, f2));
        assert(b1.len() + redex.body_usage * reach_size(b1, ai, f1) <= usize::MAX);
        assert(c.len() + 1 + nest(b1, bi, f2) + nest(b1, ai, f1) <= usize::MAX);
        assert(subst_fits(node_view(b1, bi, c.push(f), f2)->0, ta, 1));
    }
    let new_body = substitute(tree, &redex, Ghost(fuel), Ghost(c));
    let ghost b2 = tree.backing@;
    let ghost fr = (f2 + f1) as nat;
    proof {
        assert(node_view(b1, bi, c.push(redex.func_index), f2) == node_view(b0, bi, c.push(redex.func_index), f2));
        assert(node_view(b1, ai, c, f1) == node_view(b0, ai, c, f1));
        assert(node_view(b2, new_body.0 as int, c, fr) == Some(
            subst_down(node_view(b0, bi, c.push(redex.func_index), f2)->0, node_view(b0, ai, c, f1)->0, 1),
        ));
        lemma_reach_basics(b2, new_body.0 as int, fr);
        lemma_tree_within(b2, new_body.0 as int, fr);
        if !(pe is IntoRoot) {
            assert(b2[pp] == b1[pp]);
            assert(skel(b1[pp]) == skel(b0[pp]));
        }
    }
    repoint_node(tree, redex.parent_to_app, new_body);
    proof {
        let b3 = tree.backing@;
        let nb = new_body.0 as int;
        assert(node_view(b0, p, c, fuel) == Some(Debruijn::Application {
            func: Box::new(Debruijn::Abstraction { body: Box::new(node_view(b0, bi, c.push(redex.func_index), f2)->0) }),
            arg: Box::new(node_view(b0, ai, c, f1)->0),
        }));
        if pe is IntoRoot {
            assert(p == r0);
            assert(c == Seq::<BackingIndex>::empty());
            assert(is_tree(b3, nb, fr) && node_view(b3, nb, Seq::empty(), fr) is Some);
            let g = tree.fuel();
            if g <= fr {
                lemma_view_fuel(b3, nb, Seq::empty(), g, fr);
            } else {
                lemma_view_fuel(b3, nb, Seq::empty(), fr, g);
            }
            let sd = subst_down(node_view(b0, bi, c.push(redex.func_index), f2)->0, node_view(b0, ai, c, f1)->0, 1);
            assert(reduced_view(b0, r0, Seq::empty(), fuel, p) == Some(sd));
            assert(b3 == b2);
            assert(tree.root == new_body);
        } else {
            assert forall|k: int| reach(b2, nb, fr).contains(k) implies 0 <= k < b3.len() && skel(#[trigger] b3[k]) == skel(b2[k]) by {}
            lemma_reach_frame(b2, b3, nb, fr);
            assert forall|k: int| #[trigger] reach(b0, r0, fuel).contains(k) && !reach(b0, p, fuel).contains(k) && k != pp
                implies k < b3.len() && skel(b3[k]) == skel(b0[k]) by {
                assert(b2[k] == b1[k]);
            }
            assert(skel(b3[pp]) == skel(set_edge(b0, pe, new_body)[pp]));
            lemma_outer(b0, b3, r0, EdgeWithParent::IntoRoot, Seq::empty(), fuel, p, new_body, fr);
            let g = tree.fuel();
            let h = (fuel + fr) as nat;
            assert(is_tree(b3, r0, h) && node_view(b3, r0, Seq::empty(), h) is Some);
            if g <= h {
                lemma_view_fuel(b3, r0, Seq::empty(), g, h);
            } else {
                lemma_view_fuel(b3, r0, Seq::empty(), h, g);
            }
            assert(tree.root.0 == r0);
        }
    }
    proof {
        let b3 = tree.backing@;
        assert forall|j: int| #![trigger c[j]] 0 <= j < c.len() implies b3[c[j].0 as int] is Abstraction
            && b3[c[j].0 as int]->Abstraction_0.usage == b0[c[j].0 as int]->Abstraction_0.usage + (redex.body_usage - 1)
            * bound_count(b0, c[j], ai, fuel) by {
            let k = c[j].0 as int;
            assert(!reach(b0, p, fuel).contains(k));
            assert(!reach(b0, bi, f2).contains(k));
            assert(!reach(b1, bi, f2).contains(k));
            assert(k != fi);
            assert(b2[k] == b1[k]);
        }
        assert forall|k: int|
            0 <= k < b0.len() && !reach(b0, p, fuel).contains(k) && !c.contains(BackingIndex(k as usize))
                && pe.parent_spec() != Some(BackingIndex(k as usize)) implies #[trigger] b3[k] == b0[k] by {
            assert(!reach(b0, bi, f2).contains(k));
            assert(!reach(b1, bi, f2).contains(k));
            assert(k != fi);
            assert(b1[k] == b0[k]);
            assert(b2[k] == b1[k]);
            if !(pe is IntoRoot) {
                assert(pp != k);
            }
        }
    }
}


/// Raising by `n` and then by one more, at the same cutoff, raises by `n + 1`.
pub proof fn lemma_shift_up_twice(v: Debruijn, n: nat, c: nat)
    requires
        crate::reference::can_shift(v, n as int, c),
        crate::reference::can_shift(crate::reference::shift_spec(v, n as int, c), 1, c),
    ensures
        crate::reference::shift_spec(crate::reference::shift_spec(v, n as int, c), 1, c)
            == crate::reference::shift_spec(v, (n + 1) as int, c),
        crate::reference::can_shift(v, (n + 1) as int, c),
    decreases v,
{
    match v {
        Debruijn::Index(_) => {},
        Debruijn::Application { func, arg } => {
            lemma_shift_up_twice(*func, n, c);
            lemma_shift_up_twice(*arg, n, c);
        },
        Debruijn::Abstraction { body } => {
            lemma_shift_up_twice(*body, n, c + 1);
        },
    }
}

/// Raising by `n >= 1` from cutoff `c` and then lowering by one from cutoff `c + n - 1`
/// raises by `n - 1`.
proof fn lemma_shift_up_down(v: Debruijn, n: nat, c: nat)
    requires
        n >= 1,
        crate::reference::can_shift(v, n as int, c),
    ensures
        crate::reference::shift_spec(crate::reference::shift_spec(v, n as int, c), -1, (c + n - 1) as nat)
            == crate::reference::shift_spec(v, n - 1, c),
    decreases v,
{
    match v {
        Debruijn::Index(_) => {},
        Debruijn::Application { func, arg } => {
            lemma_shift_up_down(*func, n, c);
            lemma_shift_up_down(*arg, n, c);
        },
        Debruijn::Abstraction { body } => {
            lemma_shift_up_down(*body, n, c + 1);
            assert((c + 1 + n - 1) as nat == (c + n - 1) as nat + 1);
        },
    }
}

/// Substituting the value raised by `d` for the variable of index `d` and then lowering the
/// indices above `d` is `subst_down` at depth `d`.
proof fn lemma_subst_then_lower(t: Debruijn, v: Debruijn, d: nat)
    requires
        d >= 1,
        crate::reference::can_shift(v, d as int, 1),
        crate::reference::can_subst(t, crate::reference::shift_spec(v, d as int, 1), d),
    ensures
        crate::reference::shift_spec(crate::reference::subst_spec(t, crate::reference::shift_spec(v, d as int, 1), d), -1, d)
            == subst_down(t, v, d),
    decreases t,
{
    match t {
        Debruijn::Index(i) => {
            if i == d {
                lemma_shift_up_down(v, d, 1);
            }
        },
        Debruijn::Application { func, arg } => {
            lemma_subst_then_lower(*func, v, d);
            lemma_subst_then_lower(*arg, v, d);
        },
        Debruijn::Abstraction { body } => {
            lemma_shift_up_twice(v, d, 1);
            lemma_subst_then_lower(*body, v, d + 1);
        },
    }
}

/// Contracting a redex the way a flat tree does it, in one pass that substitutes the argument
/// and lowers the indices above the variable, gives the reference beta reduction wherever that
/// stays within `usize`.
pub proof fn lemma_contraction_is_beta(body: Debruijn, arg: Debruijn)
    requires
        crate::reference::can_beta(body, arg),
    ensures
        subst_down(body, arg, 1) == crate::reference::beta_spec(body, arg),
{
    lemma_subst_then_lower(body, arg, 1);
}

/// Contracting the redex at the root of a flat tree gives the reference beta reduction of the
/// term, wherever that stays within `usize`.
pub proof fn lemma_root_reduction_is_beta(t: FlatTree, r: RedexMut)
    requires
        t.well_formed(),
        t.lists_redex(r),
        r.app_index == t.root,
        t.term() matches Debruijn::Application { func, arg } && (*func matches Debruijn::Abstraction { body }
            && crate::reference::can_beta(*body, *arg)),
    ensures
        t.term() matches Debruijn::Application { func, arg } && (*func matches Debruijn::Abstraction { body }
            && t.reduced(r) == crate::reference::beta_spec(*body, *arg)),
{
    let b = t.backing@;
    let fuel = t.tree_fuel();
    let r0 = t.root.0 as int;
    assert(is_tree(b, r0, fuel) && node_view(b, r0, Seq::empty(), fuel) is Some);
    let g = t.fuel();
    if g <= fuel {
        lemma_view_fuel(b, r0, Seq::empty(), g, fuel);
    } else {
        lemma_view_fuel(b, r0, Seq::empty(), fuel, g);
    }
    match t.term() {
        Debruijn::Application { func, arg } => match *func {
            Debruijn::Abstraction { body } => {
                lemma_contraction_is_beta(*body, *arg);
            },
            _ => {},
        },
        _ => {},
    }
}

} // verus!
