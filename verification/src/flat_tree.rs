//! A lambda term stored flat in one vector, where the variables bound by an abstraction form a
//! doubly linked list (its contour) that starts at the abstraction.
use vstd::prelude::*;

use crate::contour_edit::{contours_linked, entrances_ok, inserted};
use crate::debruijn::Debruijn;
use crate::layout_links::{
    contours_kept, lemma_abs_links, lemma_abs_tree, lemma_app_links, lemma_app_tree, lemma_app_tree_shapes,
    lemma_append_kept, lemma_append_links, lemma_contours_kept_result, lemma_contours_kept_trans, lemma_insert_kept,
    lemma_set_kept, lemma_append_var, lemma_links_contours, lemma_links_tails,
    lemma_tails_append, lemma_tails_push, links_kept, tails_open,
};

verus! {

/// The position of a node in the vector of a `FlatTree`.
#[derive(Debug, Clone, Copy, PartialEq, Eq, Hash, Structural)]
pub struct BackingIndex(pub u32);

/// A position that holds a free variable.
#[derive(Debug, Clone, Copy, PartialEq, Eq, Hash, Structural)]
pub struct FreeVarIndex(pub BackingIndex);

/// A position that holds a bound variable.
#[derive(Debug, Clone, Copy, PartialEq, Eq, Hash, Structural)]
pub struct BoundVarIndex(pub BackingIndex);

/// A position that holds an abstraction.
#[derive(Debug, Clone, Copy, PartialEq, Eq, Hash, Structural)]
pub struct AbsIndex(pub BackingIndex);

/// A position that holds an application.
#[derive(Debug, Clone, Copy, PartialEq, Eq, Hash, Structural)]
pub struct AppIndex(pub BackingIndex);

/// The node before a bound variable in its contour: another variable, or the abstraction.
#[derive(Debug, Clone, Copy, PartialEq, Eq, Structural)]
pub enum PrevIndex {
    Var(BoundVarIndex),
    Abs(AbsIndex),
}

/// The edge that leads to a node, named by the node it comes from.
#[derive(Debug, Clone, Copy, PartialEq, Eq, Structural)]
pub enum ParentEdge {
    /// The node is the root.
    IntoRoot,
    /// The node is the body of this abstraction.
    AbsToBody(AbsIndex),
    /// The node is the function of this application.
    AppToFunc(AppIndex),
    /// The node is the argument of this application.
    AppToArg(AppIndex),
}

/// A variable bound `height` abstractions above the whole term (at least 1).
#[derive(Debug, Clone, Copy, PartialEq, Eq, Structural)]
pub struct FreeVariable {
    pub height: u32,
}

/// A variable bound by an abstraction of the term: its neighbours in the contour and the edge
/// that leads to it.
#[derive(Debug, Clone, Copy, PartialEq, Eq, Structural)]
pub struct BoundVariable {
    pub prev: BackingIndex,
    pub next: Option<BoundVarIndex>,
    pub parent: ParentEdge,
}

/// An abstraction: its body and the first variable of its contour, if it binds any.
#[derive(Debug, Clone, Copy, PartialEq, Eq, Structural)]
pub struct Abstraction {
    pub body: BackingIndex,
    pub entrance: Option<BoundVarIndex>,
}

/// An application.
#[derive(Debug, Clone, Copy, PartialEq, Eq, Structural)]
pub struct Application {
    pub func: BackingIndex,
    pub arg: BackingIndex,
}

/// One node of a `FlatTree`.
#[derive(Debug, Clone, Copy, PartialEq, Eq, Structural)]
pub enum Node {
    FreeVar(FreeVariable),
    BoundVar(BoundVariable),
    Abs(Abstraction),
    App(Application),
}

/// A node together with its typed position.
pub enum NodeRef<'a> {
    BoundVar(&'a BoundVariable, BoundVarIndex),
    FreeVar(&'a FreeVariable, FreeVarIndex),
    Abs(&'a Abstraction, AbsIndex),
    App(&'a Application, AppIndex),
}

/// A lambda term as a vector of nodes, the position of its root and the number of nodes known
/// to be garbage.
#[derive(Debug)]
pub struct FlatTree {
    pub backing: Vec<Node>,
    pub root: BackingIndex,
    pub garbage_count: usize,
}

impl BackingIndex {
    /// A position that no node has.
    pub open spec fn dummy() -> BackingIndex {
        BackingIndex(u32::MAX)
    }

    /// The position `index`, cut to 32 bits.
    pub fn new(index: usize) -> (r: BackingIndex)
        ensures
            r.0 == index as u32,
    {
        BackingIndex(index as u32)
    }

    /// The position as a `usize`.
    pub fn get(&self) -> (r: usize)
        ensures
            r == self.0,
    {
        self.0 as usize
    }
}

impl ParentEdge {
    /// The node the edge comes from, if any.
    pub open spec fn parent_spec(self) -> Option<BackingIndex> {
        match self {
            ParentEdge::IntoRoot => None,
            ParentEdge::AbsToBody(abs) => Some(abs.0),
            ParentEdge::AppToFunc(app) => Some(app.0),
            ParentEdge::AppToArg(app) => Some(app.0),
        }
    }

    /// The node the edge comes from; `None` for the edge into the root.
    pub fn parent(&self) -> (r: Option<BackingIndex>)
        ensures
            r == self.parent_spec(),
    {
        match self {
            ParentEdge::IntoRoot => None,
            ParentEdge::AbsToBody(abs) => Some(abs.0),
            ParentEdge::AppToFunc(app) => Some(app.0),
            ParentEdge::AppToArg(app) => Some(app.0),
        }
    }
}

impl PrevIndex {
    /// The position named.
    pub open spec fn index_spec(self) -> BackingIndex {
        match self {
            PrevIndex::Var(var) => var.0,
            PrevIndex::Abs(abs) => abs.0,
        }
    }

    /// The position named.
    pub fn index(&self) -> (r: BackingIndex)
        ensures
            r == self.index_spec(),
    {
        match self {
            PrevIndex::Var(var) => var.0,
            PrevIndex::Abs(abs) => abs.0,
        }
    }
}

/// The typed reference to node `n` at `index`.
pub open spec fn node_ref_spec<'a>(n: &'a Node, index: BackingIndex) -> NodeRef<'a> {
    match n {
        Node::FreeVar(v) => NodeRef::FreeVar(v, FreeVarIndex(index)),
        Node::BoundVar(v) => NodeRef::BoundVar(v, BoundVarIndex(index)),
        Node::Abs(a) => NodeRef::Abs(a, AbsIndex(index)),
        Node::App(a) => NodeRef::App(a, AppIndex(index)),
    }
}

impl FlatTree {
    /// An empty tree.
    pub fn new() -> (t: FlatTree)
        ensures
            t.backing@.len() == 0,
            t.root == BackingIndex(0),
            t.garbage_count == 0,
    {
        FlatTree::with_capacity(0)
    }

    fn with_capacity(capacity: usize) -> (t: FlatTree)
        ensures
            t.backing@.len() == 0,
            t.root == BackingIndex(0),
            t.garbage_count == 0,
    {
        FlatTree { backing: Vec::with_capacity(capacity), root: BackingIndex(0), garbage_count: 0 }
    }

    /// The number of nodes in the vector.
    pub fn total_count(&self) -> (r: usize)
        ensures
            r == self.backing@.len(),
    {
        self.backing.len()
    }

    /// The number of nodes that are not garbage.
    pub fn alive_count(&self) -> (r: usize)
        requires
            self.garbage_count <= self.backing@.len(),
        ensures
            r == self.backing@.len() - self.garbage_count,
    {
        self.total_count() - self.garbage_count
    }

    /// The node at `index`.
    pub fn get(&self, index: BackingIndex) -> (r: &Node)
        requires
            index.0 < self.backing@.len(),
        ensures
            *r == self.backing@[index.0 as int],
    {
        &self.backing[index.0 as usize]
    }

    /// The node at `index`, to change in place.
    pub fn get_mut(&mut self, index: BackingIndex) -> (r: &mut Node)
        requires
            index.0 < old(self).backing@.len(),
        ensures
            *r == old(self).backing@[index.0 as int],
            final(self).backing@ == old(self).backing@.update(index.0 as int, *final(r)),
            final(self).root == old(self).root,
            final(self).garbage_count == old(self).garbage_count,
    {
        &mut self.backing[index.0 as usize]
    }

    /// The node at `index` with its typed position.
    pub fn get_ref(&self, index: BackingIndex) -> (r: NodeRef<'_>)
        requires
            index.0 < self.backing@.len(),
        ensures
            r == node_ref_spec(&self.backing@[index.0 as int], index),
    {
        match &self.backing[index.0 as usize] {
            Node::FreeVar(free_variable) => NodeRef::FreeVar(free_variable, FreeVarIndex(index)),
            Node::BoundVar(bound_variable) => NodeRef::BoundVar(bound_variable, BoundVarIndex(index)),
            Node::Abs(abstraction) => NodeRef::Abs(abstraction, AbsIndex(index)),
            Node::App(application) => NodeRef::App(application, AppIndex(index)),
        }
    }
}

/// A node, to change in place, together with its typed position.
pub enum NodeRefMut<'a> {
    BoundVar(&'a mut BoundVariable, BoundVarIndex),
    FreeVar(&'a mut FreeVariable, FreeVarIndex),
    Abs(&'a mut Abstraction, AbsIndex),
    App(&'a mut Application, AppIndex),
}

impl FlatTree {
    /// The node at `index` with its typed position, to change in place.
    pub fn get_ref_mut(&mut self, index: BackingIndex) -> (r: NodeRefMut<'_>)
        requires
            index.0 < old(self).backing@.len(),
        ensures
            match r {
                NodeRefMut::FreeVar(v, i) => i == FreeVarIndex(index) && old(self).backing@[index.0 as int] == Node::FreeVar(*v)
                    && final(self).backing@ == old(self).backing@.update(index.0 as int, Node::FreeVar(*final(v))),
                NodeRefMut::BoundVar(v, i) => i == BoundVarIndex(index) && old(self).backing@[index.0 as int] == Node::BoundVar(*v)
                    && final(self).backing@ == old(self).backing@.update(index.0 as int, Node::BoundVar(*final(v))),
                NodeRefMut::Abs(a, i) => i == AbsIndex(index) && old(self).backing@[index.0 as int] == Node::Abs(*a)
                    && final(self).backing@ == old(self).backing@.update(index.0 as int, Node::Abs(*final(a))),
                NodeRefMut::App(a, i) => i == AppIndex(index) && old(self).backing@[index.0 as int] == Node::App(*a)
                    && final(self).backing@ == old(self).backing@.update(index.0 as int, Node::App(*final(a))),
            },
            final(self).root == old(self).root,
            final(self).garbage_count == old(self).garbage_count,
    {
        match &mut self.backing[index.0 as usize] {
            Node::FreeVar(free_variable) => NodeRefMut::FreeVar(free_variable, FreeVarIndex(index)),
            Node::BoundVar(bound_variable) => NodeRefMut::BoundVar(bound_variable, BoundVarIndex(index)),
            Node::Abs(abstraction) => NodeRefMut::Abs(abstraction, AbsIndex(index)),
            Node::App(application) => NodeRefMut::App(application, AppIndex(index)),
        }
    }

    /// The bound variable at `var`.
    pub fn get_bound_var(&self, var: BoundVarIndex) -> (r: &BoundVariable)
        requires
            var.0.0 < self.backing@.len(),
            self.backing@[var.0.0 as int] is BoundVar,
        ensures
            self.backing@[var.0.0 as int] == Node::BoundVar(*r),
    {
        match self.get(var.0) {
            Node::BoundVar(v) => v,
            _ => vstd::pervasive::unreached(),
        }
    }

    /// The bound variable at `var`, to change in place.
    pub fn get_bound_var_mut(&mut self, var: BoundVarIndex) -> (r: &mut BoundVariable)
        requires
            var.0.0 < old(self).backing@.len(),
            old(self).backing@[var.0.0 as int] is BoundVar,
        ensures
            old(self).backing@[var.0.0 as int] == Node::BoundVar(*r),
            final(self).backing@ == old(self).backing@.update(var.0.0 as int, Node::BoundVar(*final(r))),
            final(self).root == old(self).root,
            final(self).garbage_count == old(self).garbage_count,
    {
        match self.get_mut(var.0) {
            Node::BoundVar(v) => v,
            _ => vstd::pervasive::unreached(),
        }
    }

    /// The abstraction at `abs`.
    pub fn get_abs(&self, abs: AbsIndex) -> (r: &Abstraction)
        requires
            abs.0.0 < self.backing@.len(),
            self.backing@[abs.0.0 as int] is Abs,
        ensures
            self.backing@[abs.0.0 as int] == Node::Abs(*r),
    {
        match self.get(abs.0) {
            Node::Abs(a) => a,
            _ => vstd::pervasive::unreached(),
        }
    }

    /// The abstraction at `abs`, to change in place.
    pub fn get_abs_mut(&mut self, abs: AbsIndex) -> (r: &mut Abstraction)
        requires
            abs.0.0 < old(self).backing@.len(),
            old(self).backing@[abs.0.0 as int] is Abs,
        ensures
            old(self).backing@[abs.0.0 as int] == Node::Abs(*r),
            final(self).backing@ == old(self).backing@.update(abs.0.0 as int, Node::Abs(*final(r))),
            final(self).root == old(self).root,
            final(self).garbage_count == old(self).garbage_count,
    {
        match self.get_mut(abs.0) {
            Node::Abs(a) => a,
            _ => vstd::pervasive::unreached(),
        }
    }

    /// The application at `app`.
    pub fn get_app(&self, app: AppIndex) -> (r: &Application)
        requires
            app.0.0 < self.backing@.len(),
            self.backing@[app.0.0 as int] is App,
        ensures
            self.backing@[app.0.0 as int] == Node::App(*r),
    {
        match self.get(app.0) {
            Node::App(a) => a,
            _ => vstd::pervasive::unreached(),
        }
    }

    /// The application at `app`, to change in place.
    pub fn get_app_mut(&mut self, app: AppIndex) -> (r: &mut Application)
        requires
            app.0.0 < old(self).backing@.len(),
            old(self).backing@[app.0.0 as int] is App,
        ensures
            old(self).backing@[app.0.0 as int] == Node::App(*r),
            final(self).backing@ == old(self).backing@.update(app.0.0 as int, Node::App(*final(r))),
            final(self).root == old(self).root,
            final(self).garbage_count == old(self).garbage_count,
    {
        match self.get_mut(app.0) {
            Node::App(a) => a,
            _ => vstd::pervasive::unreached(),
        }
    }

    /// Appends `term` and returns its position.
    pub fn alloc_node(&mut self, term: Node) -> (r: BackingIndex)
        requires
            old(self).backing@.len() < u32::MAX,
        ensures
            final(self).backing@ == old(self).backing@.push(term),
            final(self).root == old(self).root,
            final(self).garbage_count == old(self).garbage_count,
            r.0 == old(self).backing@.len(),
    {
        let term_index = BackingIndex::new(self.backing.len());
        self.backing.push(term);
        term_index
    }

    /// Appends a bound variable and returns its position.
    pub fn alloc_bound_var(&mut self, bound_var: BoundVariable) -> (r: BoundVarIndex)
        requires
            old(self).backing@.len() < u32::MAX,
        ensures
            final(self).backing@ == old(self).backing@.push(Node::BoundVar(bound_var)),
            final(self).root == old(self).root,
            final(self).garbage_count == old(self).garbage_count,
            r.0.0 == old(self).backing@.len(),
    {
        let node = Node::BoundVar(bound_var);
        let index = self.alloc_node(node);
        BoundVarIndex(index)
    }

    /// Appends a free variable and returns its position.
    pub fn alloc_free_var(&mut self, free_var: FreeVariable) -> (r: BackingIndex)
        requires
            old(self).backing@.len() < u32::MAX,
        ensures
            final(self).backing@ == old(self).backing@.push(Node::FreeVar(free_var)),
            final(self).root == old(self).root,
            final(self).garbage_count == old(self).garbage_count,
            r.0 == old(self).backing@.len(),
    {
        let node = Node::FreeVar(free_var);
        self.alloc_node(node)
    }

    /// Appends an application and returns its position.
    pub fn alloc_app(&mut self, func: BackingIndex, arg: BackingIndex) -> (r: BackingIndex)
        requires
            old(self).backing@.len() < u32::MAX,
        ensures
            final(self).backing@ == old(self).backing@.push(Node::App(Application { func, arg })),
            final(self).root == old(self).root,
            final(self).garbage_count == old(self).garbage_count,
            r.0 == old(self).backing@.len(),
    {
        let app = Node::App(Application { func, arg });
        self.alloc_node(app)
    }

    /// Appends a bound variable reached by `parent` that is in no contour yet, and returns its
    /// position.
    pub fn alloc_blank_var(&mut self, parent: ParentEdge) -> (r: BoundVarIndex)
        requires
            old(self).backing@.len() < u32::MAX,
        ensures
            final(self).backing@ == old(self).backing@.push(
                Node::BoundVar(BoundVariable { prev: BackingIndex::dummy(), next: None, parent }),
            ),
            final(self).root == old(self).root,
            final(self).garbage_count == old(self).garbage_count,
            r.0.0 == old(self).backing@.len(),
    {
        let backing_index = BackingIndex::new(self.backing.len());
        let var = BoundVariable { prev: BackingIndex(u32::MAX), next: None, parent };
        let dummy = Node::BoundVar(var);
        self.backing.push(dummy);
        BoundVarIndex(backing_index)
    }

    /// Appends an abstraction with no body yet and an empty contour, and returns its position.
    pub fn alloc_blank_abs(&mut self) -> (r: AbsIndex)
        requires
            old(self).backing@.len() < u32::MAX,
        ensures
            final(self).backing@ == old(self).backing@.push(
                Node::Abs(Abstraction { body: BackingIndex::dummy(), entrance: None }),
            ),
            final(self).root == old(self).root,
            final(self).garbage_count == old(self).garbage_count,
            r.0.0 == old(self).backing@.len(),
    {
        let backing_index = BackingIndex::new(self.backing.len());
        let abs = Abstraction { body: BackingIndex(u32::MAX), entrance: None };
        let dummy = Node::Abs(abs);
        self.backing.push(dummy);
        AbsIndex(backing_index)
    }

    /// Appends an application with no children yet, and returns its position.
    pub fn alloc_blank_app(&mut self) -> (r: AppIndex)
        requires
            old(self).backing@.len() < u32::MAX,
        ensures
            final(self).backing@ == old(self).backing@.push(
                Node::App(Application { func: BackingIndex::dummy(), arg: BackingIndex::dummy() }),
            ),
            final(self).root == old(self).root,
            final(self).garbage_count == old(self).garbage_count,
            r.0.0 == old(self).backing@.len(),
    {
        let backing_index = BackingIndex::new(self.backing.len());
        let app = Application { func: BackingIndex(u32::MAX), arg: BackingIndex(u32::MAX) };
        let dummy = Node::App(app);
        self.backing.push(dummy);
        AppIndex(backing_index)
    }
}

/// The abstraction reached from `var` by following `prev` links at most `fuel` times.
pub open spec fn binder_of(b: Seq<Node>, var: BoundVariable, fuel: nat) -> Option<AbsIndex>
    decreases fuel,
{
    if fuel == 0 || var.prev.0 >= b.len() {
        None
    } else {
        match b[var.prev.0 as int] {
            Node::Abs(_) => Some(AbsIndex(var.prev)),
            Node::BoundVar(v) => binder_of(b, v, (fuel - 1) as nat),
            _ => None,
        }
    }
}

/// The abstraction that binds `var`: the end of its chain of `prev` links.
pub open spec fn binder(b: Seq<Node>, var: BoundVariable) -> Option<AbsIndex> {
    binder_of(b, var, b.len())
}

/// More fuel does not change a binder that is found.
pub proof fn lemma_binder_fuel(b: Seq<Node>, var: BoundVariable, f1: nat, f2: nat)
    requires
        binder_of(b, var, f1) is Some,
        f1 <= f2,
    ensures
        binder_of(b, var, f2) == binder_of(b, var, f1),
    decreases f1,
{
    if let Node::BoundVar(v) = b[var.prev.0 as int] {
        lemma_binder_fuel(b, v, (f1 - 1) as nat, (f2 - 1) as nat);
    }
}

impl BoundVariable {
    /// The node before the variable in its contour.
    pub open spec fn prev_spec(self, b: Seq<Node>) -> PrevIndex {
        match b[self.prev.0 as int] {
            Node::BoundVar(_) => PrevIndex::Var(BoundVarIndex(self.prev)),
            _ => PrevIndex::Abs(AbsIndex(self.prev)),
        }
    }

    /// The node before the variable in its contour, which must be a variable or an
    /// abstraction.
    pub fn prev(&self, tree: &FlatTree) -> (r: PrevIndex)
        requires
            self.prev.0 < tree.backing@.len(),
            tree.backing@[self.prev.0 as int] is BoundVar || tree.backing@[self.prev.0 as int] is Abs,
        ensures
            r == self.prev_spec(tree.backing@),
    {
        match tree.get_ref(self.prev) {
            NodeRef::BoundVar(_, bound_var) => PrevIndex::Var(bound_var),
            NodeRef::Abs(_, abs) => PrevIndex::Abs(abs),
            _ => vstd::pervasive::unreached(),
        }
    }
}

impl FlatTree {
    /// The abstraction that binds `bound_var`, found by following its `prev` links.
    pub fn get_binding_abs(&self, bound_var: &BoundVariable) -> (r: AbsIndex)
        requires
            binder(self.backing@, *bound_var) is Some,
        ensures
            Some(r) == binder(self.backing@, *bound_var),
    {
        let ghost b = self.backing@;
        let ghost target = binder(b, *bound_var);
        let mut var = bound_var;
        let ghost mut fuel: nat = b.len();
        loop
            invariant
                b == self.backing@,
                binder_of(b, *var, fuel) == target,
                target == binder(self.backing@, *bound_var),
                target is Some,
            decreases fuel,
        {
            match var.prev(self) {
                PrevIndex::Var(bound_var_index) => {
                    let prev_var = self.get_bound_var(bound_var_index);
                    var = prev_var;
                    proof {
                        fuel = (fuel - 1) as nat;
                    }
                },
                PrevIndex::Abs(abs_index) => return abs_index,
            }
        }
    }

    /// Makes `this_var` follow `prev` in its contour: the `next` link of a variable, or the
    /// entrance of an abstraction.
    fn fixup_next(&mut self, prev: PrevIndex, this_var: BoundVarIndex)
        requires
            prev.index_spec().0 < old(self).backing@.len(),
            prev matches PrevIndex::Var(_) ==> old(self).backing@[prev.index_spec().0 as int] is BoundVar,
            prev matches PrevIndex::Abs(_) ==> old(self).backing@[prev.index_spec().0 as int] is Abs,
        ensures
            final(self).root == old(self).root,
            final(self).garbage_count == old(self).garbage_count,
            final(self).backing@ == old(self).backing@.update(
                prev.index_spec().0 as int,
                match old(self).backing@[prev.index_spec().0 as int] {
                    Node::BoundVar(v) => Node::BoundVar(BoundVariable { next: Some(this_var), ..v }),
                    Node::Abs(a) => Node::Abs(Abstraction { entrance: Some(this_var), ..a }),
                    n => n,
                },
            ),
    {
        match prev {
            PrevIndex::Var(var) => {
                let var = self.get_bound_var_mut(var);
                var.next = Some(this_var);
            },
            PrevIndex::Abs(abs) => {
                let abs = self.get_abs_mut(abs);
                abs.entrance = Some(this_var);
            },
        }
    }
}

/// The first position of `x` in `s`, or -1 when it does not occur.
pub open spec fn first_pos<T>(s: Seq<T>, x: T) -> int
    decreases s.len(),
{
    if s.len() == 0 {
        -1
    } else if s[0] == x {
        0
    } else {
        let p = first_pos(s.drop_first(), x);
        if p < 0 {
            -1
        } else {
            p + 1
        }
    }
}

/// `first_pos` is the first position that holds `x`.
pub proof fn lemma_first_pos<T>(s: Seq<T>, x: T, p: int)
    requires
        0 <= p <= s.len(),
        forall|j: int| 0 <= j < p ==> s[j] != x,
    ensures
        p < s.len() && s[p] == x ==> first_pos(s, x) == p,
        p == s.len() ==> first_pos(s, x) == -1,
    decreases p,
{
    if p > 0 {
        let rest = s.drop_first();
        assert forall|j: int| 0 <= j < p - 1 implies rest[j] != x by {
            assert(rest[j] == s[j + 1]);
        }
        lemma_first_pos(rest, x, p - 1);
        if p < s.len() && s[p] == x {
            assert(rest[p - 1] == s[p]);
        }
    }
}

/// A position found by `first_pos` holds `x`.
pub proof fn lemma_first_pos_found<T>(s: Seq<T>, x: T)
    ensures
        first_pos(s, x) >= 0 ==> first_pos(s, x) < s.len() && s[first_pos(s, x)] == x,
        first_pos(s, x) >= -1,
    decreases s.len(),
{
    if s.len() > 0 && s[0] != x {
        let rest = s.drop_first();
        lemma_first_pos_found(rest, x);
        if first_pos(rest, x) >= 0 {
            assert(s[first_pos(s, x)] == rest[first_pos(rest, x)]);
        }
    }
}

/// The term stored at position `i` under the abstractions of `chain` (outermost first),
/// unfolding at most `fuel` nodes deep; `None` when a position is out of range, a variable is
/// in no contour of an enclosing abstraction, an index does not fit, or the fuel runs out.
pub open spec fn node_view(b: Seq<Node>, i: int, chain: Seq<AbsIndex>, fuel: nat) -> Option<Debruijn>
    decreases fuel,
{
    if fuel == 0 || i < 0 || i >= b.len() {
        None
    } else {
        match b[i] {
            Node::FreeVar(v) => if v.height >= 1 && chain.len() + v.height <= usize::MAX {
                Some(Debruijn::Index((chain.len() + v.height) as usize))
            } else {
                None
            },
            Node::BoundVar(v) => match binder(b, v) {
                Some(a) => {
                    let p = first_pos(chain, a);
                    if p >= 0 {
                        Some(Debruijn::Index((chain.len() - p) as usize))
                    } else {
                        None
                    }
                },
                None => None,
            },
            Node::Abs(abs) => match node_view(
                b,
                abs.body.0 as int,
                chain.push(AbsIndex(BackingIndex(i as u32))),
                (fuel - 1) as nat,
            ) {
                Some(t) => Some(Debruijn::Abstraction { body: Box::new(t) }),
                None => None,
            },
            Node::App(app) => match (
                node_view(b, app.func.0 as int, chain, (fuel - 1) as nat),
                node_view(b, app.arg.0 as int, chain, (fuel - 1) as nat),
            ) {
                (Some(f), Some(a)) => Some(
                    Debruijn::Application { func: Box::new(f), arg: Box::new(a) },
                ),
                _ => None,
            },
        }
    }
}

/// More fuel does not change a view that exists.
pub proof fn lemma_view_fuel(b: Seq<Node>, i: int, chain: Seq<AbsIndex>, f1: nat, f2: nat)
    requires
        node_view(b, i, chain, f1) is Some,
        f1 <= f2,
    ensures
        node_view(b, i, chain, f2) == node_view(b, i, chain, f1),
    decreases f1,
{
    match b[i] {
        Node::Abs(abs) => {
            lemma_view_fuel(b, abs.body.0 as int, chain.push(AbsIndex(BackingIndex(i as u32))), (f1 - 1) as nat, (f2 - 1) as nat);
        },
        Node::App(app) => {
            lemma_view_fuel(b, app.func.0 as int, chain, (f1 - 1) as nat, (f2 - 1) as nat);
            lemma_view_fuel(b, app.arg.0 as int, chain, (f1 - 1) as nat, (f2 - 1) as nat);
        },
        _ => {},
    }
}

impl FlatTree {
    /// The tree holds a term: see `node_view`.
    pub open spec fn valid(&self) -> bool {
        exists|f: nat| #[trigger] node_view(self.backing@, self.root.0 as int, Seq::empty(), f) is Some
    }

    /// Enough fuel to unfold a valid tree.
    pub open spec fn fuel(&self) -> nat {
        choose|f: nat| #[trigger] node_view(self.backing@, self.root.0 as int, Seq::empty(), f) is Some
    }

    /// The term that a valid tree holds.
    pub open spec fn term(&self) -> Debruijn {
        node_view(self.backing@, self.root.0 as int, Seq::empty(), self.fuel())->0
    }

    /// Two fuels that both unfold the tree give the same term.
    pub proof fn lemma_term_fuel(&self, f: nat)
        requires
            node_view(self.backing@, self.root.0 as int, Seq::empty(), f) is Some,
        ensures
            self.valid(),
            node_view(self.backing@, self.root.0 as int, Seq::empty(), f) == Some(self.term()),
    {
        let g = self.fuel();
        if f <= g {
            lemma_view_fuel(self.backing@, self.root.0 as int, Seq::empty(), f, g);
        } else {
            lemma_view_fuel(self.backing@, self.root.0 as int, Seq::empty(), g, f);
        }
    }
}

/// The de Bruijn index of a free variable under the abstractions of `abs_chain`.
pub fn compute_debruijn_index_free(abs_chain: &[AbsIndex], free_var: &FreeVariable) -> (r: usize)
    requires
        abs_chain@.len() + free_var.height <= usize::MAX,
    ensures
        r == abs_chain@.len() + free_var.height,
{
    let debruijn_depth = abs_chain.len();
    debruijn_depth + free_var.height as usize
}

/// The de Bruijn index of a bound variable under the abstractions of `chain` (outermost
/// first): the number of abstractions from the innermost one down to the one that binds it.
pub fn compute_debruijn_index_bound(tree: &FlatTree, chain: &[AbsIndex], bound_var: &BoundVariable) -> (r: usize)
    requires
        binder(tree.backing@, *bound_var) is Some,
        first_pos(chain@, binder(tree.backing@, *bound_var)->0) >= 0,
    ensures
        r == chain@.len() - first_pos(chain@, binder(tree.backing@, *bound_var)->0),
{
    let abs = tree.get_binding_abs(bound_var);
    proof {
        lemma_first_pos_found(chain@, abs);
    }
    let mut index: usize = 0;
    while index < chain.len() && chain[index] != abs
        invariant
            index <= chain@.len(),
            forall|j: int| 0 <= j < index ==> chain@[j] != abs,
        decreases chain@.len() - index,
    {
        index = index + 1;
    }
    proof {
        lemma_first_pos(chain@, abs, index as int);
    }
    let debruijn_depth = chain.len();
    debruijn_depth - index
}

fn unflatten_at(tree: &FlatTree, chain: &mut Vec<AbsIndex>, index: BackingIndex, Ghost(fuel): Ghost<nat>) -> (r: Debruijn)
    requires
        node_view(tree.backing@, index.0 as int, old(chain)@, fuel) is Some,
    ensures
        r == node_view(tree.backing@, index.0 as int, old(chain)@, fuel)->0,
        final(chain)@ == old(chain)@,
    decreases fuel,
{
    match tree.get_ref(index) {
        NodeRef::FreeVar(free_var, _) => {
            let index = compute_debruijn_index_free(chain.as_slice(), free_var);
            Debruijn::Index(index)
        },
        NodeRef::BoundVar(bound_var, _) => {
            let debruijn_index = compute_debruijn_index_bound(tree, chain.as_slice(), bound_var);
            Debruijn::Index(debruijn_index)
        },
        NodeRef::Abs(abstraction, abs) => {
            chain.push(abs);
            let body = unflatten_at(tree, chain, abstraction.body, Ghost((fuel - 1) as nat));
            chain.pop();
            proof {
                assert(chain@ =~= old(chain)@);
            }
            Debruijn::Abstraction { body: Box::new(body) }
        },
        NodeRef::App(application, _) => {
            let func = unflatten_at(tree, chain, application.func, Ghost((fuel - 1) as nat));
            let arg = unflatten_at(tree, chain, application.arg, Ghost((fuel - 1) as nat));
            Debruijn::Application { func: Box::new(func), arg: Box::new(arg) }
        },
    }
}

/// The term that `tree` holds.
pub fn unflatten(tree: &FlatTree) -> (r: Debruijn)
    requires
        tree.valid(),
    ensures
        r == tree.term(),
{
    let mut chain: Vec<AbsIndex> = Vec::new();
    proof {
        assert(chain@ =~= Seq::<AbsIndex>::empty());
    }
    unflatten_at(tree, &mut chain, tree.root, Ghost(tree.fuel()))
}

/// The node without its forward contour links (`next` and `entrance`).
pub open spec fn skel(n: Node) -> Node {
    match n {
        Node::BoundVar(v) => Node::BoundVar(BoundVariable { next: None, ..v }),
        Node::Abs(a) => Node::Abs(Abstraction { entrance: None, ..a }),
        _ => n,
    }
}

/// The node without its contour links: a variable keeps only the edge that leads to it, an
/// abstraction only its body.
pub open spec fn outline(n: Node) -> Node {
    match n {
        Node::BoundVar(v) => Node::BoundVar(BoundVariable { prev: BackingIndex(0), next: None, parent: v.parent }),
        Node::Abs(a) => Node::Abs(Abstraction { body: a.body, entrance: None }),
        _ => n,
    }
}

/// The outlines of the nodes that lay `t` out from position `base` under `depth` abstractions,
/// reached by `parent`: in preorder, each node before its parts; an index past the
/// abstractions is free with the height above them, any other is bound.
pub open spec fn preorder_outline(t: Debruijn, base: int, depth: nat, parent: ParentEdge) -> Seq<Node>
    decreases t,
{
    match t {
        Debruijn::Index(k) => seq![
            if k > depth {
                Node::FreeVar(FreeVariable { height: (k - depth) as u32 })
            } else {
                Node::BoundVar(BoundVariable { prev: BackingIndex(0), next: None, parent })
            },
        ],
        Debruijn::Abstraction { body } => seq![
            Node::Abs(Abstraction { body: BackingIndex((base + 1) as u32), entrance: None }),
        ] + preorder_outline(*body, base + 1, depth + 1, ParentEdge::AbsToBody(AbsIndex(BackingIndex(base as u32)))),
        Debruijn::Application { func, arg } => seq![
            Node::App(
                Application { func: BackingIndex((base + 1) as u32), arg: BackingIndex((base + 1 + func.size()) as u32) },
            ),
        ] + preorder_outline(*func, base + 1, depth, ParentEdge::AppToFunc(AppIndex(BackingIndex(base as u32))))
            + preorder_outline(*arg, base + 1 + func.size(), depth, ParentEdge::AppToArg(AppIndex(BackingIndex(base as u32)))),
    }
}

/// A term is laid out in as many nodes as it has.
pub proof fn lemma_outline_len(t: Debruijn, base: int, depth: nat, parent: ParentEdge)
    ensures
        preorder_outline(t, base, depth, parent).len() == t.size(),
    decreases t,
{
    match t {
        Debruijn::Index(_) => {},
        Debruijn::Abstraction { body } => {
            lemma_outline_len(*body, base + 1, depth + 1, ParentEdge::AbsToBody(AbsIndex(BackingIndex(base as u32))));
        },
        Debruijn::Application { func, arg } => {
            lemma_outline_len(*func, base + 1, depth, ParentEdge::AppToFunc(AppIndex(BackingIndex(base as u32))));
            lemma_outline_len(
                *arg,
                base + 1 + func.size(),
                depth,
                ParentEdge::AppToArg(AppIndex(BackingIndex(base as u32))),
            );
        },
    }
}

/// `b2` keeps every node of `b1` with its kind and, for a variable, its `prev` link.
pub open spec fn binder_frame(b1: Seq<Node>, b2: Seq<Node>) -> bool {
    &&& b1.len() <= b2.len()
    &&& forall|k: int| 0 <= k < b1.len() ==> same_kind_prev(#[trigger] b1[k], b2[k])
}

/// Two nodes of the same kind, with the same `prev` link when they are variables.
pub open spec fn same_kind_prev(n1: Node, n2: Node) -> bool {
    match (n1, n2) {
        (Node::FreeVar(_), Node::FreeVar(_)) => true,
        (Node::BoundVar(v1), Node::BoundVar(v2)) => v1.prev == v2.prev,
        (Node::Abs(_), Node::Abs(_)) => true,
        (Node::App(_), Node::App(_)) => true,
        _ => false,
    }
}

/// A binder found in `b1` is found in any `b2` that keeps the kinds and links of `b1`.
pub proof fn lemma_binder_frame(b1: Seq<Node>, b2: Seq<Node>, var: BoundVariable, fuel: nat)
    requires
        binder_frame(b1, b2),
        binder_of(b1, var, fuel) is Some,
    ensures
        binder_of(b2, var, fuel) == binder_of(b1, var, fuel),
    decreases fuel,
{
    let p = var.prev.0 as int;
    assert(same_kind_prev(b1[p], b2[p]));
    if let Node::BoundVar(v1) = b1[p] {
        let v2 = b2[p]->BoundVar_0;
        lemma_binder_frame(b1, b2, v1, (fuel - 1) as nat);
        lemma_binder_same_prev(b2, v1, v2, (fuel - 1) as nat);
    }
}

/// The binder of a variable depends on its `prev` link alone.
pub proof fn lemma_binder_same_prev(b: Seq<Node>, v1: BoundVariable, v2: BoundVariable, fuel: nat)
    requires
        v1.prev == v2.prev,
    ensures
        binder_of(b, v1, fuel) == binder_of(b, v2, fuel),
{
}

/// The binder of a variable found with `b1`'s length as fuel is found in a longer `b2` that
/// keeps the kinds and links of `b1`.
pub proof fn lemma_binder_grow(b1: Seq<Node>, b2: Seq<Node>, var: BoundVariable)
    requires
        binder_frame(b1, b2),
        binder(b1, var) is Some,
    ensures
        binder(b2, var) == binder(b1, var),
{
    lemma_binder_frame(b1, b2, var, b1.len());
    lemma_binder_fuel(b2, var, b1.len(), b2.len());
}

/// Every node reached from `i` within `fuel` steps lies in `[lo, hi)`.
pub open spec fn within(b: Seq<Node>, i: int, lo: int, hi: int, fuel: nat) -> bool
    decreases fuel,
{
    &&& fuel > 0
    &&& lo <= i < hi
    &&& i < b.len()
    &&& match b[i] {
        Node::Abs(abs) => within(b, abs.body.0 as int, lo, hi, (fuel - 1) as nat),
        Node::App(app) => within(b, app.func.0 as int, lo, hi, (fuel - 1) as nat) && within(
            b,
            app.arg.0 as int,
            lo,
            hi,
            (fuel - 1) as nat,
        ),
        _ => true,
    }
}

/// A subtree within a range and some fuel is within any wider range and more fuel.
pub proof fn lemma_within_widen(b: Seq<Node>, i: int, lo: int, hi: int, fuel: nat, lo2: int, hi2: int, fuel2: nat)
    requires
        within(b, i, lo, hi, fuel),
        lo2 <= lo,
        hi <= hi2,
        fuel <= fuel2,
    ensures
        within(b, i, lo2, hi2, fuel2),
    decreases fuel,
{
    match b[i] {
        Node::Abs(abs) => {
            lemma_within_widen(b, abs.body.0 as int, lo, hi, (fuel - 1) as nat, lo2, hi2, (fuel2 - 1) as nat);
        },
        Node::App(app) => {
            lemma_within_widen(b, app.func.0 as int, lo, hi, (fuel - 1) as nat, lo2, hi2, (fuel2 - 1) as nat);
            lemma_within_widen(b, app.arg.0 as int, lo, hi, (fuel - 1) as nat, lo2, hi2, (fuel2 - 1) as nat);
        },
        _ => {},
    }
}

/// A view of a subtree within `[lo, hi)` is kept by any `b2` that keeps the nodes of the range
/// (up to forward contour links) and the kinds and links of all of `b1`.
pub proof fn lemma_view_frame(b1: Seq<Node>, b2: Seq<Node>, i: int, lo: int, hi: int, fuel: nat, chain: Seq<AbsIndex>)
    requires
        within(b1, i, lo, hi, fuel),
        node_view(b1, i, chain, fuel) is Some,
        binder_frame(b1, b2),
        forall|k: int| lo <= k < hi ==> skel(#[trigger] b2[k]) == skel(b1[k]),
    ensures
        within(b2, i, lo, hi, fuel),
        node_view(b2, i, chain, fuel) == node_view(b1, i, chain, fuel),
    decreases fuel,
{
    assert(skel(b2[i]) == skel(b1[i]));
    match b1[i] {
        Node::BoundVar(v1) => {
            let v2 = b2[i]->BoundVar_0;
            lemma_binder_grow(b1, b2, v1);
            lemma_binder_same_prev(b2, v1, v2, b2.len());
        },
        Node::Abs(abs) => {
            lemma_view_frame(b1, b2, abs.body.0 as int, lo, hi, (fuel - 1) as nat, chain.push(AbsIndex(BackingIndex(i as u32))));
        },
        Node::App(app) => {
            lemma_view_frame(b1, b2, app.func.0 as int, lo, hi, (fuel - 1) as nat, chain);
            lemma_view_frame(b1, b2, app.arg.0 as int, lo, hi, (fuel - 1) as nat, chain);
        },
        _ => {},
    }
}

/// The abstractions of a chain of pairs.
pub open spec fn chain_abs(chain: Seq<(AbsIndex, PrevIndex)>) -> Seq<AbsIndex> {
    chain.map_values(|e: (AbsIndex, PrevIndex)| e.0)
}

/// The end of the contour of `e.0` recorded in `e.1`: the abstraction itself, or a variable
/// it binds.
pub open spec fn tail_ok(b: Seq<Node>, e: (AbsIndex, PrevIndex)) -> bool {
    match e.1 {
        PrevIndex::Abs(x) => x == e.0,
        PrevIndex::Var(v) => v.0.0 < b.len() && b[v.0.0 as int] is BoundVar && binder(b, b[v.0.0 as int]->BoundVar_0) == Some(e.0),
    }
}

/// The chain of enclosing abstractions while a term is laid out: increasing positions below
/// `lo`, each an abstraction, each with the end of its contour.
pub open spec fn flat_chain_ok(b: Seq<Node>, chain: Seq<(AbsIndex, PrevIndex)>, lo: int) -> bool {
    &&& lo <= b.len()
    &&& forall|j: int, k: int| 0 <= j < k < chain.len() ==> chain[j].0.0.0 < chain[k].0.0.0
    &&& forall|k: int| 0 <= k < chain.len() ==> (#[trigger] chain[k]).0.0.0 < lo && b[chain[k].0.0.0 as int] is Abs
        && tail_ok(b, chain[k])
}

/// A chain stays in order when the nodes keep their kinds and links.
pub proof fn lemma_chain_frame(b1: Seq<Node>, b2: Seq<Node>, chain: Seq<(AbsIndex, PrevIndex)>, lo: int)
    requires
        flat_chain_ok(b1, chain, lo),
        binder_frame(b1, b2),
    ensures
        flat_chain_ok(b2, chain, lo),
{
    assert forall|k: int| 0 <= k < chain.len() implies (#[trigger] chain[k]).0.0.0 < lo && b2[chain[k].0.0.0 as int] is Abs
        && tail_ok(b2, chain[k]) by {
        let a = chain[k].0.0.0 as int;
        assert(same_kind_prev(b1[a], b2[a]));
        if let PrevIndex::Var(v) = chain[k].1 {
            let vi = v.0.0 as int;
            assert(same_kind_prev(b1[vi], b2[vi]));
            lemma_binder_grow(b1, b2, b1[vi]->BoundVar_0);
            lemma_binder_same_prev(b2, b1[vi]->BoundVar_0, b2[vi]->BoundVar_0, b2.len());
        }
    }
}

/// In an increasing chain, every abstraction's first position is its position.
pub proof fn lemma_chain_abs_pos(chain: Seq<(AbsIndex, PrevIndex)>, p: int)
    requires
        forall|j: int, k: int| 0 <= j < k < chain.len() ==> chain[j].0.0.0 < chain[k].0.0.0,
        0 <= p < chain.len(),
    ensures
        first_pos(chain_abs(chain), chain[p].0) == p,
{
    let ca = chain_abs(chain);
    assert forall|j: int| 0 <= j < p implies ca[j] != chain[p].0 by {
        assert(ca[j] == chain[j].0);
    }
    lemma_first_pos(ca, chain[p].0, p);
}

/// Every free variable of `t`, under `depth` enclosing abstractions, has a height that fits
/// in 32 bits.
pub open spec fn heights_fit(t: Debruijn, depth: nat) -> bool
    decreases t,
{
    match t {
        Debruijn::Index(i) => i <= depth || i - depth <= u32::MAX,
        Debruijn::Application { func, arg } => heights_fit(*func, depth) && heights_fit(*arg, depth),
        Debruijn::Abstraction { body } => heights_fit(*body, depth + 1),
    }
}

/// Appends the variable of index `debruijn_index` under the abstractions of `abs_chain`: a free
/// variable, or a bound one added at the end of the contour of its abstraction.
fn alloc_var_and_add_to_contour(
    tree: &mut FlatTree,
    abs_chain: &mut Vec<(AbsIndex, PrevIndex)>,
    debruijn_index: usize,
    parent: ParentEdge,
) -> (r: BackingIndex)
    requires
        debruijn_index >= 1,
        debruijn_index <= old(abs_chain)@.len() || debruijn_index - old(abs_chain)@.len() <= u32::MAX,
        old(tree).backing@.len() < u32::MAX,
        flat_chain_ok(old(tree).backing@, old(abs_chain)@, old(tree).backing@.len() as int),
        tails_open(old(tree).backing@, old(abs_chain)@),
    ensures
        links_kept(old(tree).backing@, final(tree).backing@, final(abs_chain)@),
        is_tree(final(tree).backing@, r.0 as int, 1),
        final(tree).backing@.len() == old(tree).backing@.len() + 1,
        final(tree).root == old(tree).root,
        final(tree).garbage_count == old(tree).garbage_count,
        binder_frame(old(tree).backing@, final(tree).backing@),
        forall|k: int| 0 <= k < old(tree).backing@.len() ==> skel(#[trigger] final(tree).backing@[k]) == skel(old(tree).backing@[k]),
        r.0 == old(tree).backing@.len(),
        chain_abs(final(abs_chain)@) == chain_abs(old(abs_chain)@),
        flat_chain_ok(final(tree).backing@, final(abs_chain)@, final(tree).backing@.len() as int),
        within(final(tree).backing@, r.0 as int, old(tree).backing@.len() as int, final(tree).backing@.len() as int, 1),
        node_view(final(tree).backing@, r.0 as int, chain_abs(old(abs_chain)@), 1) == Some(Debruijn::Index(debruijn_index)),
        outline(final(tree).backing@[r.0 as int]) == preorder_outline(
            Debruijn::Index(debruijn_index),
            r.0 as int,
            old(abs_chain)@.len(),
            parent,
        )[0],
{
    let ghost b0 = tree.backing@;
    let ghost c0 = abs_chain@;
    let len = abs_chain.len();
    if debruijn_index > len {
        let free_height = debruijn_index - len;
        let height = free_height as u32;
        let var = FreeVariable { height };
        let r = tree.alloc_free_var(var);
        proof {
            let b1 = tree.backing@;
            assert(binder_frame(b0, b1)) by {
                assert forall|k: int| 0 <= k < b0.len() implies same_kind_prev(#[trigger] b0[k], b1[k]) by {
                    assert(b1[k] == b0[k]);
                }
            }
            lemma_chain_frame(b0, b1, c0, b0.len() as int);
            assert(chain_abs(c0).len() == c0.len());
            lemma_append_links(b0, b1, c0);
        }
        r
    } else {
        let chain_index = len - debruijn_index;
        let (abs, prev) = abs_chain[chain_index];
        let this_var = BoundVariable { prev: prev.index(), next: None, parent };
        proof {
            assert(tail_ok(b0, c0[chain_index as int]));
        }
        let this_var_index = tree.alloc_bound_var(this_var);
        let ghost b1 = tree.backing@;
        proof {
            assert(binder_frame(b0, b1)) by {
                assert forall|k: int| 0 <= k < b0.len() implies same_kind_prev(#[trigger] b0[k], b1[k]) by {
                    assert(b1[k] == b0[k]);
                }
            }
            match prev {
                PrevIndex::Abs(x) => {
                    assert(binder_of(b1, this_var, b1.len()) == Some(abs));
                },
                PrevIndex::Var(v) => {
                    let vv = b0[v.0.0 as int]->BoundVar_0;
                    lemma_binder_frame(b0, b1, vv, b0.len());
                    assert(b1[v.0.0 as int] == b0[v.0.0 as int]);
                    assert(binder_of(b1, this_var, b1.len()) == binder_of(b1, vv, b0.len()));
                },
            }
        }
        tree.fixup_next(prev, this_var_index);
        let ghost b2 = tree.backing@;
        proof {
            assert(binder_frame(b1, b2)) by {
                assert forall|k: int| 0 <= k < b1.len() implies same_kind_prev(#[trigger] b1[k], b2[k]) by {}
            }
            lemma_binder_grow(b1, b2, this_var);
            assert(b2[b0.len() as int] == Node::BoundVar(this_var));
        }
        abs_chain.set(chain_index, (abs, PrevIndex::Var(this_var_index)));
        proof {
            let b2 = tree.backing@;
            assert(binder_frame(b0, b2)) by {
                assert forall|k: int| 0 <= k < b0.len() implies same_kind_prev(#[trigger] b0[k], b2[k]) by {
                    assert(same_kind_prev(b0[k], b1[k]));
                    assert(same_kind_prev(b1[k], b2[k]));
                }
            }
            lemma_chain_frame(b0, b2, c0, b0.len() as int);
            assert(chain_abs(abs_chain@) =~= chain_abs(c0)) by {
                assert(c0[chain_index as int].0 == abs);
            }
            let c1 = abs_chain@;
            assert forall|k: int| 0 <= k < c1.len() implies (#[trigger] c1[k]).0.0.0 < b2.len() && b2[c1[k].0.0.0 as int] is Abs
                && tail_ok(b2, c1[k]) by {
                if k != chain_index {
                    assert(c1[k] == c0[k]);
                }
            }
            assert forall|k: int| 0 <= k < b0.len() implies skel(#[trigger] b2[k]) == skel(b0[k]) by {}
            lemma_chain_abs_pos(c0, chain_index as int);
            assert(chain_abs(c0)[chain_index as int] == abs);
            lemma_append_var(b0, this_var, b2, c0, abs_chain@, chain_index as int);
            reveal(links_kept);
        }
        this_var_index.0
    }
}

/// An abstraction laid out as its node followed by the outline of its body is laid out as
/// its outline says.
proof fn lemma_outline_abs(b: Seq<Node>, lo: int, t: Debruijn, depth: nat, parent: ParentEdge)
    requires
        t matches Debruijn::Abstraction { body } && {
            let pb = preorder_outline(*body, lo + 1, depth + 1, ParentEdge::AbsToBody(AbsIndex(BackingIndex(lo as u32))));
            &&& b.len() == lo + 1 + pb.len()
            &&& forall|k: int| lo + 1 <= k < b.len() ==> outline(#[trigger] b[k]) == pb[k - lo - 1]
        },
        outline(b[lo]) == preorder_outline(t, lo, depth, parent)[0],
    ensures
        forall|k: int| lo <= k < b.len() ==> outline(#[trigger] b[k]) == preorder_outline(t, lo, depth, parent)[k - lo],
{
    if let Debruijn::Abstraction { body } = t {
        let pb = preorder_outline(*body, lo + 1, depth + 1, ParentEdge::AbsToBody(AbsIndex(BackingIndex(lo as u32))));
        let pt = preorder_outline(t, lo, depth, parent);
        assert forall|k: int| lo <= k < b.len() implies outline(#[trigger] b[k]) == pt[k - lo] by {
            if k > lo {
                assert(pt[k - lo] == pb[k - lo - 1]);
            }
        }
    }
}

/// An application laid out as its node followed by the outlines of its function and its
/// argument is laid out as its outline says.
proof fn lemma_outline_app(b: Seq<Node>, lo: int, t: Debruijn, depth: nat, parent: ParentEdge)
    requires
        t matches Debruijn::Application { func, arg } && {
            let a = AppIndex(BackingIndex(lo as u32));
            let pf = preorder_outline(*func, lo + 1, depth, ParentEdge::AppToFunc(a));
            let pa = preorder_outline(*arg, lo + 1 + func.size(), depth, ParentEdge::AppToArg(a));
            &&& pf.len() == func.size()
            &&& b.len() == lo + 1 + pf.len() + pa.len()
            &&& forall|k: int| lo + 1 <= k < lo + 1 + pf.len() ==> outline(#[trigger] b[k]) == pf[k - lo - 1]
            &&& forall|k: int| lo + 1 + pf.len() <= k < b.len() ==> outline(#[trigger] b[k]) == pa[k - lo - 1 - pf.len()]
        },
        outline(b[lo]) == preorder_outline(t, lo, depth, parent)[0],
    ensures
        forall|k: int| lo <= k < b.len() ==> outline(#[trigger] b[k]) == preorder_outline(t, lo, depth, parent)[k - lo],
{
    if let Debruijn::Application { func, arg } = t {
        let a = AppIndex(BackingIndex(lo as u32));
        let pf = preorder_outline(*func, lo + 1, depth, ParentEdge::AppToFunc(a));
        let pa = preorder_outline(*arg, lo + 1 + func.size(), depth, ParentEdge::AppToArg(a));
        let pt = preorder_outline(t, lo, depth, parent);
        assert forall|k: int| lo <= k < b.len() implies outline(#[trigger] b[k]) == pt[k - lo] by {
            if lo < k < lo + 1 + pf.len() {
                assert(pt[k - lo] == pf[k - lo - 1]);
            } else if k >= lo + 1 + pf.len() {
                assert(pt[k - lo] == pa[k - lo - 1 - pf.len()]);
            }
        }
    }
}

/// Lays `term` out at the end of `tree` under the abstractions of `abs_chain`, reached by
/// `parent`, and returns the position of its root node.
#[verifier::rlimit(100)]
#[verifier::spinoff_prover]
fn flatten_at(tree: &mut FlatTree, abs_chain: &mut Vec<(AbsIndex, PrevIndex)>, term: &Debruijn, parent: ParentEdge) -> (r: BackingIndex)
    requires
        term.indices_positive(),
        heights_fit(*term, old(abs_chain)@.len()),
        old(tree).backing@.len() + term.size() <= u32::MAX,
        flat_chain_ok(old(tree).backing@, old(abs_chain)@, old(tree).backing@.len() as int),
        tails_open(old(tree).backing@, old(abs_chain)@),
    ensures
        links_kept(old(tree).backing@, final(tree).backing@, final(abs_chain)@),
        is_tree(final(tree).backing@, r.0 as int, term.size()),
        final(tree).backing@.len() == old(tree).backing@.len() + term.size(),
        final(tree).root == old(tree).root,
        final(tree).garbage_count == old(tree).garbage_count,
        binder_frame(old(tree).backing@, final(tree).backing@),
        forall|k: int| 0 <= k < old(tree).backing@.len() ==> skel(#[trigger] final(tree).backing@[k]) == skel(old(tree).backing@[k]),
        chain_abs(final(abs_chain)@) == chain_abs(old(abs_chain)@),
        flat_chain_ok(final(tree).backing@, final(abs_chain)@, final(tree).backing@.len() as int),
        within(final(tree).backing@, r.0 as int, old(tree).backing@.len() as int, final(tree).backing@.len() as int, term.size()),
        node_view(final(tree).backing@, r.0 as int, chain_abs(old(abs_chain)@), term.size()) == Some(*term),
        r.0 == old(tree).backing@.len(),
        forall|k: int|
            old(tree).backing@.len() <= k < final(tree).backing@.len() ==> outline(#[trigger] final(tree).backing@[k])
                == preorder_outline(*term, old(tree).backing@.len() as int, old(abs_chain)@.len(), parent)[k - old(
                tree,
            ).backing@.len()],
    decreases term,
{
    let ghost b0 = tree.backing@;
    let ghost c0 = abs_chain@;
    let ghost lo = b0.len() as int;
    match term {
        Debruijn::Index(debruijn_index) => {
            let r = alloc_var_and_add_to_contour(tree, abs_chain, *debruijn_index, parent);
            proof {
                assert(tree.backing@.len() == lo + 1);
            }
            r
        },
        Debruijn::Abstraction { body } => {
            let abs_index = tree.alloc_blank_abs();
            let ghost b1 = tree.backing@;
            abs_chain.push((abs_index, PrevIndex::Abs(abs_index)));
            proof {
                assert(binder_frame(b0, b1)) by {
                    assert forall|k: int| 0 <= k < b0.len() implies same_kind_prev(#[trigger] b0[k], b1[k]) by {
                        assert(b1[k] == b0[k]);
                    }
                }
                lemma_chain_frame(b0, b1, c0, lo);
                let c1 = abs_chain@;
                assert forall|k: int| 0 <= k < c1.len() implies (#[trigger] c1[k]).0.0.0 < b1.len() && b1[c1[k].0.0.0 as int] is Abs
                    && tail_ok(b1, c1[k]) by {
                    if k < c0.len() {
                        assert(c1[k] == c0[k]);
                    }
                }
                assert(chain_abs(c1) =~= chain_abs(c0).push(abs_index));
                lemma_tails_push(b0, b1, c0);
                assert(c1 == c0.push((abs_index, PrevIndex::Abs(abs_index))));
            }
            let body_index = flatten_at(tree, abs_chain, body, ParentEdge::AbsToBody(abs_index));
            let ghost b2 = tree.backing@;
            let ghost c2 = abs_chain@;
            abs_chain.pop();
            let ghost c3 = abs_chain@;
            proof {
                assert(chain_abs(c3) =~= chain_abs(c0)) by {
                    assert(chain_abs(c2) == chain_abs(c0).push(abs_index));
                    assert forall|k: int| 0 <= k < c3.len() implies chain_abs(c3)[k] == chain_abs(c0)[k] by {
                        assert(c3[k] == c2[k]);
                        assert(chain_abs(c2)[k] == c2[k].0);
                    }
                }
            }
            let abs = tree.get_abs_mut(abs_index);
            abs.body = body_index;
            proof {
                let b3 = tree.backing@;
                let hi = b3.len() as int;
                assert(same_kind_prev(b1[lo], b2[lo]));
                assert(binder_frame(b2, b3)) by {
                    assert forall|k: int| 0 <= k < b2.len() implies same_kind_prev(#[trigger] b2[k], b3[k]) by {}
                }
                assert forall|k: int| lo + 1 <= k < hi implies skel(#[trigger] b3[k]) == skel(b2[k]) by {}
                lemma_view_frame(b2, b3, body_index.0 as int, lo + 1, hi, body.size(), chain_abs(c0).push(abs_index));
                lemma_within_widen(b3, body_index.0 as int, lo + 1, hi, body.size(), lo, hi, body.size());
                assert(abs_index == AbsIndex(BackingIndex(lo as u32)));
                assert(binder_frame(b0, b3)) by {
                    assert forall|k: int| 0 <= k < b0.len() implies same_kind_prev(#[trigger] b0[k], b3[k]) by {
                        assert(same_kind_prev(b0[k], b1[k]));
                        assert(same_kind_prev(b1[k], b2[k]));
                        assert(same_kind_prev(b2[k], b3[k]));
                    }
                }
                assert forall|k: int| 0 <= k < lo implies skel(#[trigger] b3[k]) == skel(b0[k]) by {
                    assert(skel(b2[k]) == skel(b1[k]));
                }
                lemma_chain_frame(b2, b3, c3, hi);
                assert(chain_abs(c2).len() == c2.len());
                assert(chain_abs(abs_chain@).len() >= 0);
                assert(b2[lo] is Abs && b3[lo] is Abs);
                lemma_abs_links(b0, b1, b2, b3, c0, c2, c3);
                lemma_abs_tree(b2, b3, lo, body_index.0 as int, body.size());
                let pb = preorder_outline(**body, lo + 1, (c0.len() + 1) as nat, ParentEdge::AbsToBody(abs_index));
                lemma_outline_len(**body, lo + 1, (c0.len() + 1) as nat, ParentEdge::AbsToBody(abs_index));
                assert forall|k: int| lo + 1 <= k < b3.len() implies outline(#[trigger] b3[k]) == pb[k - lo - 1] by {
                    assert(skel(b3[k]) == skel(b2[k]));
                    assert(outline(b2[k]) == pb[k - lo - 1]);
                }
                lemma_outline_abs(b3, lo, *term, c0.len(), parent);
            }
            abs_index.0
        },
        Debruijn::Application { func, arg } => {
            let app_index = tree.alloc_blank_app();
            let ghost b1 = tree.backing@;
            proof {
                assert(binder_frame(b0, b1)) by {
                    assert forall|k: int| 0 <= k < b0.len() implies same_kind_prev(#[trigger] b0[k], b1[k]) by {
                        assert(b1[k] == b0[k]);
                    }
                }
                lemma_chain_frame(b0, b1, c0, lo);
                lemma_tails_append(b0, b1, c0);
            }
            let func_index = flatten_at(tree, abs_chain, func, ParentEdge::AppToFunc(app_index));
            let ghost b2 = tree.backing@;
            let ghost mid = b2.len() as int;
            let ghost c2 = abs_chain@;
            proof {
                lemma_links_tails(b1, b2, c2);
            }
            let arg_index = flatten_at(tree, abs_chain, arg, ParentEdge::AppToArg(app_index));
            let ghost b3 = tree.backing@;
            let app = tree.get_app_mut(app_index);
            app.func = func_index;
            app.arg = arg_index;
            proof {
                let b4 = tree.backing@;
                let hi = b4.len() as int;
                let ca = chain_abs(c0);
                assert(same_kind_prev(b1[lo], b2[lo]));
                assert(same_kind_prev(b2[lo], b3[lo]));
                assert(binder_frame(b3, b4)) by {
                    assert forall|k: int| 0 <= k < b3.len() implies same_kind_prev(#[trigger] b3[k], b4[k]) by {}
                }
                assert forall|k: int| lo + 1 <= k < mid implies skel(#[trigger] b3[k]) == skel(b2[k]) by {}
                lemma_view_frame(b2, b3, func_index.0 as int, lo + 1, mid, func.size(), ca);
                assert forall|k: int| lo + 1 <= k < hi implies skel(#[trigger] b4[k]) == skel(b3[k]) by {}
                lemma_view_frame(b3, b4, func_index.0 as int, lo + 1, mid, func.size(), ca);
                lemma_view_frame(b3, b4, arg_index.0 as int, mid, hi, arg.size(), ca);
                lemma_within_widen(b4, func_index.0 as int, lo + 1, mid, func.size(), lo, hi, (term.size() - 1) as nat);
                lemma_within_widen(b4, arg_index.0 as int, mid, hi, arg.size(), lo, hi, (term.size() - 1) as nat);
                lemma_view_fuel(b4, func_index.0 as int, ca, func.size(), (term.size() - 1) as nat);
                lemma_view_fuel(b4, arg_index.0 as int, ca, arg.size(), (term.size() - 1) as nat);
                assert(binder_frame(b0, b4)) by {
                    assert forall|k: int| 0 <= k < b0.len() implies same_kind_prev(#[trigger] b0[k], b4[k]) by {
                        assert(same_kind_prev(b0[k], b1[k]));
                        assert(same_kind_prev(b1[k], b2[k]));
                        assert(same_kind_prev(b2[k], b3[k]));
                        assert(same_kind_prev(b3[k], b4[k]));
                    }
                }
                assert forall|k: int| 0 <= k < lo implies skel(#[trigger] b4[k]) == skel(b0[k]) by {
                    assert(skel(b2[k]) == skel(b1[k]));
                    assert(skel(b3[k]) == skel(b2[k]));
                }
                lemma_chain_frame(b3, b4, abs_chain@, hi);
                assert(b3[lo] is App && b4[lo] is App);
                lemma_app_links(b0, b1, b2, b3, b4, c2, abs_chain@);
                lemma_app_tree(b2, b3, b4, lo, mid, func_index.0 as int, arg_index.0 as int, func.size(), arg.size());
                let pf = preorder_outline(**func, lo + 1, c0.len(), ParentEdge::AppToFunc(app_index));
                let pa = preorder_outline(**arg, lo + 1 + func.size(), c0.len(), ParentEdge::AppToArg(app_index));
                lemma_outline_len(**func, lo + 1, c0.len(), ParentEdge::AppToFunc(app_index));
                lemma_outline_len(**arg, lo + 1 + func.size(), c0.len(), ParentEdge::AppToArg(app_index));
                assert(chain_abs(c2).len() == c2.len() && chain_abs(c0).len() == c0.len());
                assert forall|k: int| lo + 1 <= k < mid implies outline(#[trigger] b4[k]) == pf[k - lo - 1] by {
                    assert(skel(b3[k]) == skel(b2[k]));
                    assert(skel(b4[k]) == skel(b3[k]));
                    assert(outline(b2[k]) == pf[k - lo - 1]);
                }
                assert forall|k: int| mid <= k < hi implies outline(#[trigger] b4[k]) == pa[k - mid] by {
                    assert(skel(b4[k]) == skel(b3[k]));
                    assert(outline(b3[k]) == pa[k - mid]);
                }
                assert(app_index == AppIndex(BackingIndex(lo as u32)));
                lemma_outline_app(b4, lo, *term, c0.len(), parent);
            }
            app_index.0
        },
    }
}

/// The flat layout of `debruijn`, with the contour of each abstraction in the order its
/// variables are laid out.
pub fn flatten(debruijn: &Debruijn) -> (t: FlatTree)
    requires
        debruijn.indices_positive(),
        heights_fit(*debruijn, 0),
        debruijn.size() <= u32::MAX,
    ensures
        t.valid(),
        t.term() == *debruijn,
        t.garbage_count == 0,
        entrances_ok(t.backing@),
        contours_linked(t.backing@),
        is_tree(t.backing@, t.root.0 as int, debruijn.size()),
        t.backing@.len() == debruijn.size(),
        debruijn.size() < u32::MAX ==> t.well_formed(),
        t.root.0 == 0,
        forall|k: int|
            0 <= k < t.backing@.len() ==> outline(#[trigger] t.backing@[k]) == preorder_outline(
                *debruijn,
                0,
                0,
                ParentEdge::IntoRoot,
            )[k],
{
    let mut tree = FlatTree::new();
    let mut abs_chain: Vec<(AbsIndex, PrevIndex)> = Vec::new();
    proof {
        assert(chain_abs(abs_chain@) =~= Seq::<AbsIndex>::empty());
        assert(tails_open(tree.backing@, abs_chain@));
        assert(entrances_ok(tree.backing@));
        assert(contours_linked(tree.backing@));
    }
    let ghost b0 = tree.backing@;
    let root_index = flatten_at(&mut tree, &mut abs_chain, debruijn, ParentEdge::IntoRoot);
    tree.root = root_index;
    proof {
        lemma_links_contours(b0, tree.backing@, abs_chain@);
        tree.lemma_term_fuel(debruijn.size());
        assert(is_tree(tree.backing@, tree.root.0 as int, debruijn.size())
            && node_view(tree.backing@, tree.root.0 as int, Seq::empty(), debruijn.size()) is Some);
    }
    tree
}

/// The node with only what a view reads of it besides binders: its kind, a free variable's
/// height, an abstraction's body and an application's children.
pub open spec fn shape(n: Node) -> Node {
    match n {
        Node::BoundVar(v) => Node::BoundVar(
            BoundVariable { prev: BackingIndex(0), next: None, parent: ParentEdge::IntoRoot },
        ),
        Node::Abs(a) => Node::Abs(Abstraction { body: a.body, entrance: None }),
        _ => n,
    }
}

/// `b2` keeps the nodes of `b1` with their kinds, and every binder found in `b1`.
pub open spec fn binders_kept(b1: Seq<Node>, b2: Seq<Node>) -> bool {
    &&& b1.len() <= b2.len()
    &&& forall|k: int| 0 <= k < b1.len() ==> same_kind(#[trigger] b1[k], b2[k])
    &&& forall|k: int| 0 <= k < b1.len() && (#[trigger] b1[k]) is BoundVar && binder(b1, b1[k]->BoundVar_0) is Some
        ==> binder(b2, b2[k]->BoundVar_0) == binder(b1, b1[k]->BoundVar_0)
}

/// Two nodes of the same kind.
pub open spec fn same_kind(n1: Node, n2: Node) -> bool {
    match (n1, n2) {
        (Node::FreeVar(_), Node::FreeVar(_)) => true,
        (Node::BoundVar(_), Node::BoundVar(_)) => true,
        (Node::Abs(_), Node::Abs(_)) => true,
        (Node::App(_), Node::App(_)) => true,
        _ => false,
    }
}

/// Keeping kinds and links keeps binders.
pub proof fn lemma_frame_keeps_binders(b1: Seq<Node>, b2: Seq<Node>)
    requires
        binder_frame(b1, b2),
    ensures
        binders_kept(b1, b2),
{
    assert forall|k: int| 0 <= k < b1.len() implies same_kind(#[trigger] b1[k], b2[k]) by {
        assert(same_kind_prev(b1[k], b2[k]));
    }
    assert forall|k: int| 0 <= k < b1.len() && (#[trigger] b1[k]) is BoundVar && binder(b1, b1[k]->BoundVar_0) is Some
        implies binder(b2, b2[k]->BoundVar_0) == binder(b1, b1[k]->BoundVar_0) by {
        assert(same_kind_prev(b1[k], b2[k]));
        lemma_binder_grow(b1, b2, b1[k]->BoundVar_0);
        lemma_binder_same_prev(b2, b1[k]->BoundVar_0, b2[k]->BoundVar_0, b2.len());
    }
}

/// Keeping binders composes.
pub proof fn lemma_binders_kept_trans(b1: Seq<Node>, b2: Seq<Node>, b3: Seq<Node>)
    requires
        binders_kept(b1, b2),
        binders_kept(b2, b3),
    ensures
        binders_kept(b1, b3),
{
    assert forall|k: int| 0 <= k < b1.len() implies same_kind(#[trigger] b1[k], b3[k]) by {
        assert(same_kind(b1[k], b2[k]));
        assert(same_kind(b2[k], b3[k]));
    }
    assert forall|k: int| 0 <= k < b1.len() && (#[trigger] b1[k]) is BoundVar && binder(b1, b1[k]->BoundVar_0) is Some
        implies binder(b3, b3[k]->BoundVar_0) == binder(b1, b1[k]->BoundVar_0) by {
        assert(same_kind(b1[k], b2[k]));
    }
}

/// A view of a subtree within `[lo, hi)` is kept by any `b2` that keeps the shapes of the
/// range and the binders of `b1`.
pub proof fn lemma_view_keep(b1: Seq<Node>, b2: Seq<Node>, i: int, lo: int, hi: int, fuel: nat, chain: Seq<AbsIndex>)
    requires
        within(b1, i, lo, hi, fuel),
        node_view(b1, i, chain, fuel) is Some,
        binders_kept(b1, b2),
        forall|k: int| lo <= k < hi ==> shape(#[trigger] b2[k]) == shape(b1[k]),
    ensures
        within(b2, i, lo, hi, fuel),
        node_view(b2, i, chain, fuel) == node_view(b1, i, chain, fuel),
    decreases fuel,
{
    assert(shape(b2[i]) == shape(b1[i]));
    match b1[i] {
        Node::BoundVar(v1) => {},
        Node::Abs(abs) => {
            lemma_view_keep(b1, b2, abs.body.0 as int, lo, hi, (fuel - 1) as nat, chain.push(AbsIndex(BackingIndex(i as u32))));
        },
        Node::App(app) => {
            lemma_view_keep(b1, b2, app.func.0 as int, lo, hi, (fuel - 1) as nat, chain);
            lemma_view_keep(b1, b2, app.arg.0 as int, lo, hi, (fuel - 1) as nat, chain);
        },
        _ => {},
    }
}

/// Putting a new variable `nv` at the front of the contour of `a` (before its old entrance
/// `e`, if any) keeps every binder, at the cost of one more step.
pub proof fn lemma_binder_insert(b0: Seq<Node>, b2: Seq<Node>, e: Option<int>, nv: int, a: int, var: BoundVariable, f: nat)
    requires
        b0.len() <= nv < b2.len(),
        0 <= a < b0.len(),
        b0[a] is Abs,
        b2[a] is Abs,
        b2[nv] matches Node::BoundVar(v) && v.prev.0 == a,
        forall|k: int| 0 <= k < b0.len() && Some(k) != e ==> same_kind_prev(#[trigger] b0[k], b2[k]),
        e matches Some(ei) ==> 0 <= ei < b0.len() && (b0[ei] matches Node::BoundVar(v) && v.prev.0 == a)
            && (b2[ei] matches Node::BoundVar(v) && v.prev.0 == nv),
        binder_of(b0, var, f) is Some,
    ensures
        binder_of(b2, var, f + 1) == binder_of(b0, var, f),
    decreases f,
{
    let p = var.prev.0 as int;
    if Some(p) == e {
        let v = b0[p]->BoundVar_0;
        assert(binder_of(b0, var, f) == binder_of(b0, v, (f - 1) as nat));
        let v2 = b2[p]->BoundVar_0;
        let vn = b2[nv]->BoundVar_0;
        assert(binder_of(b2, var, f + 1) == binder_of(b2, v2, f));
        assert(binder_of(b2, v2, f) == binder_of(b2, vn, (f - 1) as nat));
        assert(vn.prev == BackingIndex(a as u32));
    } else {
        assert(same_kind_prev(b0[p], b2[p]));
        if let Node::BoundVar(v1) = b0[p] {
            let v2 = b2[p]->BoundVar_0;
            lemma_binder_insert(b0, b2, e, nv, a, v1, (f - 1) as nat);
            lemma_binder_same_prev(b2, v1, v2, f);
        }
    }
}

/// The old and new abstractions of a chain of pairs.
pub open spec fn old_abs_of(contours: Seq<(AbsIndex, AbsIndex)>) -> Seq<AbsIndex> {
    contours.map_values(|c: (AbsIndex, AbsIndex)| c.0)
}

/// The new abstractions of a chain of pairs.
pub open spec fn new_abs_of(contours: Seq<(AbsIndex, AbsIndex)>) -> Seq<AbsIndex> {
    contours.map_values(|c: (AbsIndex, AbsIndex)| c.1)
}

/// The contour of the abstraction at `a` starts well: no entrance, or an entrance that is a
/// variable linked back to `a`.
pub open spec fn entrance_ok(b: Seq<Node>, a: int) -> bool {
    &&& 0 <= a < b.len()
    &&& b[a] matches Node::Abs(abs)
    &&& abs.entrance matches Some(e) ==> e.0.0 < b.len() && (b[e.0.0 as int] matches Node::BoundVar(v) && v.prev.0 == a)
}

/// The chain of new abstractions while a tree is copied: increasing positions below `lo`, each
/// an abstraction whose contour starts well.
pub open spec fn new_chain_ok(b: Seq<Node>, contours: Seq<(AbsIndex, AbsIndex)>, lo: int) -> bool {
    &&& lo <= b.len()
    &&& forall|j: int, k: int| 0 <= j < k < contours.len() ==> contours[j].1.0.0 < contours[k].1.0.0
    &&& forall|k: int| 0 <= k < contours.len() ==> (#[trigger] contours[k]).1.0.0 < lo && entrance_ok(b, contours[k].1.0.0 as int)
}

/// The new abstraction paired with the first occurrence of `old_abs`.
fn old_to_new(contours: &Vec<(AbsIndex, AbsIndex)>, old_abs: AbsIndex) -> (r: AbsIndex)
    requires
        first_pos(old_abs_of(contours@), old_abs) >= 0,
    ensures
        r == contours@[first_pos(old_abs_of(contours@), old_abs)].1,
{
    let ghost olds = old_abs_of(contours@);
    proof {
        lemma_first_pos_found(olds, old_abs);
    }
    let mut i: usize = 0;
    while i < contours.len() && contours[i].0 != old_abs
        invariant
            olds == old_abs_of(contours@),
            first_pos(olds, old_abs) >= 0,
            first_pos(olds, old_abs) < olds.len(),
            i <= contours@.len(),
            forall|j: int| 0 <= j < i ==> olds[j] != old_abs,
        decreases contours@.len() - i,
    {
        proof {
            assert(olds[i as int] == contours@[i as int].0);
        }
        i = i + 1;
    }
    proof {
        if i < contours.len() {
            assert(olds[i as int] == contours@[i as int].0);
        }
        lemma_first_pos(olds, old_abs, i as int);
    }
    contours[i].1
}

/// Puts the variable at `new_var_index` at the front of the contour of `new_abs`.
fn add_to_contour(new_tree: &mut FlatTree, new_abs: AbsIndex, new_var_index: BoundVarIndex)
    requires
        entrance_ok(old(new_tree).backing@, new_abs.0.0 as int),
        new_var_index.0.0 < old(new_tree).backing@.len(),
        old(new_tree).backing@[new_var_index.0.0 as int] matches Node::BoundVar(v) && v.prev.0 != new_abs.0.0,
    ensures
        final(new_tree).root == old(new_tree).root,
        final(new_tree).garbage_count == old(new_tree).garbage_count,
        ({
            let b = old(new_tree).backing@;
            let a = new_abs.0.0 as int;
            let nv = new_var_index.0.0 as int;
            let ent = b[a]->Abs_0.entrance;
            let b1 = b.update(a, Node::Abs(Abstraction { entrance: Some(new_var_index), ..b[a]->Abs_0 }));
            let b2 = b1.update(nv, Node::BoundVar(BoundVariable { next: ent, prev: new_abs.0, ..b[nv]->BoundVar_0 }));
            final(new_tree).backing@ == match ent {
                Some(e) => b2.update(e.0.0 as int, Node::BoundVar(BoundVariable { prev: new_var_index.0, ..b2[e.0.0 as int]->BoundVar_0 })),
                None => b2,
            }
        }),
{
    let abs = new_tree.get_abs_mut(new_abs);
    let entrance = abs.entrance;
    abs.entrance = Some(new_var_index);
    let new_var = new_tree.get_bound_var_mut(new_var_index);
    new_var.next = entrance;
    new_var.prev = new_abs.0;
    if let Some(entrance) = entrance {
        let entrance = new_tree.get_bound_var_mut(entrance);
        entrance.prev = new_var_index.0;
    }
}

/// Copies the term at `old_node_index` of `old_tree` (under the old abstractions of
/// `contours`) to the end of `new_tree` (under the new ones), reached there by `parent`.
#[verifier::rlimit(100)]
#[verifier::spinoff_prover]
fn normalize_at(
    old_tree: &FlatTree,
    new_tree: &mut FlatTree,
    contours: &mut Vec<(AbsIndex, AbsIndex)>,
    old_node_index: BackingIndex,
    parent: ParentEdge,
    Ghost(fuel): Ghost<nat>,
) -> (r: BackingIndex)
    requires
        node_view(old_tree.backing@, old_node_index.0 as int, old_abs_of(old(contours)@), fuel) is Some,
        old(new_tree).backing@.len() + node_view(old_tree.backing@, old_node_index.0 as int, old_abs_of(old(contours)@), fuel)->0.size() <= u32::MAX,
        new_chain_ok(old(new_tree).backing@, old(contours)@, old(new_tree).backing@.len() as int),
    ensures
        ({
            let t = node_view(old_tree.backing@, old_node_index.0 as int, old_abs_of(old(contours)@), fuel)->0;
            let b0 = old(new_tree).backing@;
            let b = final(new_tree).backing@;
            &&& final(contours)@ == old(contours)@
            &&& final(new_tree).root == old(new_tree).root
            &&& final(new_tree).garbage_count == old(new_tree).garbage_count
            &&& b.len() == b0.len() + t.size()
            &&& binders_kept(b0, b)
            &&& forall|k: int| 0 <= k < b0.len() ==> shape(#[trigger] b[k]) == shape(b0[k])
            &&& new_chain_ok(b, old(contours)@, b.len() as int)
            &&& within(b, r.0 as int, b0.len() as int, b.len() as int, t.size())
            &&& node_view(b, r.0 as int, new_abs_of(old(contours)@), t.size()) == Some(t)
        }),
        contours_kept(old(new_tree).backing@, final(new_tree).backing@),
        is_tree(
            final(new_tree).backing@,
            r.0 as int,
            node_view(old_tree.backing@, old_node_index.0 as int, old_abs_of(old(contours)@), fuel)->0.size(),
        ),
    decreases fuel,
{
    let ghost ob = old_tree.backing@;
    let ghost b0 = new_tree.backing@;
    let ghost c0 = contours@;
    let ghost lo = b0.len() as int;
    let ghost t = node_view(ob, old_node_index.0 as int, old_abs_of(c0), fuel)->0;
    match old_tree.get_ref(old_node_index) {
        NodeRef::FreeVar(free, _) => {
            let r = new_tree.alloc_free_var(*free);
            proof {
                let b = new_tree.backing@;
                assert(binder_frame(b0, b)) by {
                    assert forall|k: int| 0 <= k < b0.len() implies same_kind_prev(#[trigger] b0[k], b[k]) by {
                        assert(b[k] == b0[k]);
                    }
                }
                lemma_frame_keeps_binders(b0, b);
                assert forall|k: int| 0 <= k < lo implies shape(#[trigger] b[k]) == shape(b0[k]) by {
                    assert(b[k] == b0[k]);
                }
                assert forall|k: int| 0 <= k < c0.len() implies (#[trigger] c0[k]).1.0.0 < b.len() && entrance_ok(b, c0[k].1.0.0 as int) by {
                    assert(b[c0[k].1.0.0 as int] == b0[c0[k].1.0.0 as int]);
                    if let Some(e) = b0[c0[k].1.0.0 as int]->Abs_0.entrance {
                        assert(b[e.0.0 as int] == b0[e.0.0 as int]);
                    }
                }
                assert(new_abs_of(c0).len() == old_abs_of(c0).len());
                lemma_append_kept(b0, b);
            }
            r
        },
        NodeRef::BoundVar(old_var, _) => {
            let old_abs_idx = old_tree.get_binding_abs(old_var);
            let new_abs = old_to_new(contours, old_abs_idx);
            let ghost p = first_pos(old_abs_of(c0), old_abs_idx);
            let new_var_index = new_tree.alloc_blank_var(parent);
            let ghost b1 = new_tree.backing@;
            proof {
                lemma_first_pos_found(old_abs_of(c0), old_abs_idx);
                assert(c0[p] == contours@[p]);
                assert(c0[p].1 == new_abs);
                assert(entrance_ok(b0, new_abs.0.0 as int));
                assert(b1[new_abs.0.0 as int] == b0[new_abs.0.0 as int]);
                if let Some(e) = b0[new_abs.0.0 as int]->Abs_0.entrance {
                    assert(b1[e.0.0 as int] == b0[e.0.0 as int]);
                }
            }
            add_to_contour(new_tree, new_abs, new_var_index);
            proof {
                let b = new_tree.backing@;
                let a = new_abs.0.0 as int;
                let nv = new_var_index.0.0 as int;
                let ent = b0[a]->Abs_0.entrance;
                let e: Option<int> = match ent {
                    Some(x) => Some(x.0.0 as int),
                    None => None,
                };
                assert(nv == lo);
                assert forall|k: int| 0 <= k < b0.len() && Some(k) != e implies same_kind_prev(#[trigger] b0[k], b[k]) by {
                    if k != a {
                        assert(b[k] == b0[k]);
                    }
                }
                assert(binders_kept(b0, b)) by {
                    assert forall|k: int| 0 <= k < b0.len() implies same_kind(#[trigger] b0[k], b[k]) by {
                        if Some(k) != e {
                            assert(same_kind_prev(b0[k], b[k]));
                        }
                    }
                    assert forall|k: int| 0 <= k < b0.len() && (#[trigger] b0[k]) is BoundVar && binder(b0, b0[k]->BoundVar_0) is Some
                        implies binder(b, b[k]->BoundVar_0) == binder(b0, b0[k]->BoundVar_0) by {
                        let v0 = b0[k]->BoundVar_0;
                        lemma_binder_insert(b0, b, e, nv, a, v0, b0.len());
                        if Some(k) == e {
                            let vk = b[k]->BoundVar_0;
                            let vn = b[nv]->BoundVar_0;
                            assert(binder_of(b, vk, b.len()) == binder_of(b, vn, (b.len() - 1) as nat));
                        } else {
                            assert(same_kind_prev(b0[k], b[k]));
                            lemma_binder_same_prev(b, v0, b[k]->BoundVar_0, b.len());
                        }
                    }
                }
                assert forall|k: int| 0 <= k < lo implies shape(#[trigger] b[k]) == shape(b0[k]) by {
                    if k != a && Some(k) != e {
                        assert(b[k] == b0[k]);
                    }
                }
                assert forall|k: int| 0 <= k < c0.len() implies (#[trigger] c0[k]).1.0.0 < b.len() && entrance_ok(b, c0[k].1.0.0 as int) by {
                    let ck = c0[k].1.0.0 as int;
                    assert(entrance_ok(b0, ck));
                    if ck != a {
                        assert(b[ck] == b0[ck]);
                        if let Some(x) = b0[ck]->Abs_0.entrance {
                            let xi = x.0.0 as int;
                            assert(Some(xi) != e);
                            assert(b[xi] == b0[xi]);
                        }
                    }
                }
                let vn = b[nv]->BoundVar_0;
                assert(binder(b, vn) == Some(new_abs));
                let na = new_abs_of(c0);
                assert forall|j: int| 0 <= j < p implies na[j] != new_abs by {
                    assert(na[j] == c0[j].1);
                    assert(na[p] == c0[p].1);
                }
                assert(na[p] == new_abs);
                lemma_first_pos(na, new_abs, p);
                assert(b =~= inserted(b1, new_abs, new_var_index)) by {
                    if let Some(x) = ent {
                        assert(x.0.0 < b0.len());
                        assert(b0[x.0.0 as int] is BoundVar);
                    }
                }
                assert(new_abs == AbsIndex(BackingIndex(a as u32)));
                assert(new_var_index == BoundVarIndex(BackingIndex(nv as u32)));
                lemma_insert_kept(b0, b1, b, a, nv);
            }
            new_var_index.0
        },
        NodeRef::Abs(old_abs, old_abs_index) => {
            let old_body_index = old_abs.body;
            let new_abs_index = new_tree.alloc_blank_abs();
            let ghost b1 = new_tree.backing@;
            contours.push((old_abs_index, new_abs_index));
            proof {
                assert(binder_frame(b0, b1)) by {
                    assert forall|k: int| 0 <= k < b0.len() implies same_kind_prev(#[trigger] b0[k], b1[k]) by {
                        assert(b1[k] == b0[k]);
                    }
                }
                let c1 = contours@;
                assert forall|k: int| 0 <= k < c1.len() implies (#[trigger] c1[k]).1.0.0 < b1.len() && entrance_ok(b1, c1[k].1.0.0 as int) by {
                    if k < c0.len() {
                        assert(c1[k] == c0[k]);
                        let ck = c0[k].1.0.0 as int;
                        assert(b1[ck] == b0[ck]);
                        if let Some(x) = b0[ck]->Abs_0.entrance {
                            assert(b1[x.0.0 as int] == b0[x.0.0 as int]);
                        }
                    }
                }
                assert(old_abs_of(c1) =~= old_abs_of(c0).push(old_abs_index));
                assert(new_abs_of(c1) =~= new_abs_of(c0).push(new_abs_index));
                assert(old_abs_index == AbsIndex(BackingIndex(old_node_index.0 as int as u32)));
            }
            let new_body = normalize_at(old_tree, new_tree, contours, old_body_index, ParentEdge::AbsToBody(new_abs_index), Ghost((fuel - 1) as nat));
            let ghost b2 = new_tree.backing@;
            contours.pop();
            proof {
                assert(contours@ =~= c0);
            }
            let abs = new_tree.get_abs_mut(new_abs_index);
            abs.body = new_body;
            proof {
                let b3 = new_tree.backing@;
                let hi = b3.len() as int;
                let tb = node_view(ob, old_body_index.0 as int, old_abs_of(c0).push(old_abs_index), (fuel - 1) as nat)->0;
                assert(same_kind(b1[lo], b2[lo]));
                assert(binder_frame(b2, b3)) by {
                    assert forall|k: int| 0 <= k < b2.len() implies same_kind_prev(#[trigger] b2[k], b3[k]) by {}
                }
                lemma_frame_keeps_binders(b2, b3);
                assert forall|k: int| lo + 1 <= k < hi implies shape(#[trigger] b3[k]) == shape(b2[k]) by {}
                lemma_view_keep(b2, b3, new_body.0 as int, lo + 1, hi, tb.size(), new_abs_of(c0).push(new_abs_index));
                lemma_within_widen(b3, new_body.0 as int, lo + 1, hi, tb.size(), lo, hi, tb.size());
                assert(new_abs_index == AbsIndex(BackingIndex(lo as u32)));
                lemma_frame_keeps_binders(b0, b1);
                lemma_binders_kept_trans(b0, b1, b2);
                lemma_binders_kept_trans(b0, b2, b3);
                assert forall|k: int| 0 <= k < lo implies shape(#[trigger] b3[k]) == shape(b0[k]) by {
                    assert(b1[k] == b0[k]);
                    assert(shape(b2[k]) == shape(b1[k]));
                }
                assert forall|k: int| 0 <= k < c0.len() implies (#[trigger] c0[k]).1.0.0 < b3.len() && entrance_ok(b3, c0[k].1.0.0 as int) by {
                    let c2 = contours@.push((old_abs_index, new_abs_index));
                    assert(c2[k] == c0[k]);
                    let ck = c0[k].1.0.0 as int;
                    assert(entrance_ok(b2, ck));
                    assert(ck != lo);
                    assert(b3[ck] == b2[ck]);
                    if let Some(x) = b2[ck]->Abs_0.entrance {
                        assert(b3[x.0.0 as int] == b2[x.0.0 as int]);
                    }
                }
                lemma_append_kept(b0, b1);
                assert(b2[lo] is Abs && b3[lo] is Abs);
                lemma_set_kept(b2, b3, lo);
                lemma_contours_kept_trans(b0, b1, b2);
                lemma_contours_kept_trans(b0, b2, b3);
                lemma_abs_tree(b2, b3, lo, new_body.0 as int, tb.size());
            }
            new_abs_index.0
        },
        NodeRef::App(application, _) => {
            let old_func_index = application.func;
            let old_arg_index = application.arg;
            let new_app_index = new_tree.alloc_blank_app();
            let ghost b1 = new_tree.backing@;
            proof {
                assert(binder_frame(b0, b1)) by {
                    assert forall|k: int| 0 <= k < b0.len() implies same_kind_prev(#[trigger] b0[k], b1[k]) by {
                        assert(b1[k] == b0[k]);
                    }
                }
                assert forall|k: int| 0 <= k < c0.len() implies (#[trigger] c0[k]).1.0.0 < b1.len() && entrance_ok(b1, c0[k].1.0.0 as int) by {
                    let ck = c0[k].1.0.0 as int;
                    assert(b1[ck] == b0[ck]);
                    if let Some(x) = b0[ck]->Abs_0.entrance {
                        assert(b1[x.0.0 as int] == b0[x.0.0 as int]);
                    }
                }
            }
            let new_func = normalize_at(old_tree, new_tree, contours, old_func_index, ParentEdge::AppToFunc(new_app_index), Ghost((fuel - 1) as nat));
            let ghost b2 = new_tree.backing@;
            let ghost mid = b2.len() as int;
            let new_arg = normalize_at(old_tree, new_tree, contours, old_arg_index, ParentEdge::AppToArg(new_app_index), Ghost((fuel - 1) as nat));
            let ghost b3 = new_tree.backing@;
            let new_app = new_tree.get_app_mut(new_app_index);
            new_app.func = new_func;
            new_app.arg = new_arg;
            proof {
                let b4 = new_tree.backing@;
                let hi = b4.len() as int;
                let na = new_abs_of(c0);
                let tf = node_view(ob, old_func_index.0 as int, old_abs_of(c0), (fuel - 1) as nat)->0;
                let ta = node_view(ob, old_arg_index.0 as int, old_abs_of(c0), (fuel - 1) as nat)->0;
                assert(same_kind(b1[lo], b2[lo]));
                assert(same_kind(b2[lo], b3[lo]));
                assert(binder_frame(b3, b4)) by {
                    assert forall|k: int| 0 <= k < b3.len() implies same_kind_prev(#[trigger] b3[k], b4[k]) by {}
                }
                lemma_frame_keeps_binders(b3, b4);
                lemma_view_keep(b2, b3, new_func.0 as int, lo + 1, mid, tf.size(), na);
                assert forall|k: int| lo + 1 <= k < hi implies shape(#[trigger] b4[k]) == shape(b3[k]) by {}
                lemma_view_keep(b3, b4, new_func.0 as int, lo + 1, mid, tf.size(), na);
                lemma_view_keep(b3, b4, new_arg.0 as int, mid, hi, ta.size(), na);
                lemma_within_widen(b4, new_func.0 as int, lo + 1, mid, tf.size(), lo, hi, (t.size() - 1) as nat);
                lemma_within_widen(b4, new_arg.0 as int, mid, hi, ta.size(), lo, hi, (t.size() - 1) as nat);
                lemma_view_fuel(b4, new_func.0 as int, na, tf.size(), (t.size() - 1) as nat);
                lemma_view_fuel(b4, new_arg.0 as int, na, ta.size(), (t.size() - 1) as nat);
                lemma_frame_keeps_binders(b0, b1);
                lemma_binders_kept_trans(b0, b1, b2);
                lemma_binders_kept_trans(b0, b2, b3);
                lemma_binders_kept_trans(b0, b3, b4);
                assert forall|k: int| 0 <= k < lo implies shape(#[trigger] b4[k]) == shape(b0[k]) by {
                    assert(b1[k] == b0[k]);
                    assert(shape(b2[k]) == shape(b1[k]));
                    assert(shape(b3[k]) == shape(b2[k]));
                }
                assert forall|k: int| 0 <= k < c0.len() implies (#[trigger] c0[k]).1.0.0 < b4.len() && entrance_ok(b4, c0[k].1.0.0 as int) by {
                    let ck = c0[k].1.0.0 as int;
                    assert(entrance_ok(b3, ck));
                    assert(ck != lo);
                    assert(b4[ck] == b3[ck]);
                    if let Some(x) = b3[ck]->Abs_0.entrance {
                        assert(b4[x.0.0 as int] == b3[x.0.0 as int]);
                    }
                }
                lemma_append_kept(b0, b1);
                assert(b3[lo] is App && b4[lo] is App);
                lemma_set_kept(b3, b4, lo);
                lemma_contours_kept_trans(b0, b1, b2);
                lemma_contours_kept_trans(b0, b2, b3);
                lemma_contours_kept_trans(b0, b3, b4);
                lemma_app_tree_shapes(b2, b3, b4, lo, mid, new_func.0 as int, new_arg.0 as int, tf.size(), ta.size());
            }
            new_app_index.0
        },
    }
}

/// Appends to `new_tree` a copy of the term of `old_tree` laid out from its root in preorder,
/// with fresh contours, and makes it the root of `new_tree`.
pub fn normalize_into(old_tree: &FlatTree, new_tree: &mut FlatTree)
    requires
        old_tree.valid(),
        old(new_tree).backing@.len() + old_tree.term().size() <= u32::MAX,
    ensures
        final(new_tree).valid(),
        final(new_tree).term() == old_tree.term(),
        final(new_tree).backing@.len() == old(new_tree).backing@.len() + old_tree.term().size(),
        final(new_tree).garbage_count == old(new_tree).garbage_count,
        entrances_ok(old(new_tree).backing@) ==> entrances_ok(final(new_tree).backing@),
        contours_linked(old(new_tree).backing@) ==> contours_linked(final(new_tree).backing@),
        is_tree(final(new_tree).backing@, final(new_tree).root.0 as int, old_tree.term().size()),
        node_view(final(new_tree).backing@, final(new_tree).root.0 as int, Seq::empty(), old_tree.term().size()) == Some(
            old_tree.term(),
        ),
{
    let ghost b0 = new_tree.backing@;
    let mut contours: Vec<(AbsIndex, AbsIndex)> = Vec::new();
    proof {
        assert(old_abs_of(contours@) =~= Seq::<AbsIndex>::empty());
        assert(new_abs_of(contours@) =~= Seq::<AbsIndex>::empty());
    }
    let root_node = normalize_at(old_tree, new_tree, &mut contours, old_tree.root, ParentEdge::IntoRoot, Ghost(old_tree.fuel()));
    new_tree.root = root_node;
    proof {
        new_tree.lemma_term_fuel(old_tree.term().size());
        lemma_contours_kept_result(b0, new_tree.backing@);
    }
}

/// A compact copy of `tree`: the same term laid out from its root in preorder, with nothing else.
pub fn normalize(tree: &FlatTree) -> (t: FlatTree)
    requires
        tree.valid(),
        tree.garbage_count <= tree.backing@.len(),
        tree.term().size() <= u32::MAX,
    ensures
        t.valid(),
        t.term() == tree.term(),
        t.backing@.len() == tree.term().size(),
        t.garbage_count == 0,
        entrances_ok(t.backing@),
        contours_linked(t.backing@),
        is_tree(t.backing@, t.root.0 as int, tree.term().size()),
        tree.term().size() < u32::MAX ==> t.well_formed(),
{
    let alive_count = tree.alive_count();
    let mut new_tree = FlatTree::with_capacity(alive_count);
    proof {
        assert(entrances_ok(new_tree.backing@));
        assert(contours_linked(new_tree.backing@));
    }
    normalize_into(tree, &mut new_tree);
    proof {
        let n = tree.term().size();
        assert(is_tree(new_tree.backing@, new_tree.root.0 as int, n)
            && node_view(new_tree.backing@, new_tree.root.0 as int, Seq::empty(), n) is Some);
    }
    new_tree
}


/// What a contour check found wrong.
#[derive(Debug, Clone, PartialEq, Eq)]
pub enum ContourError {
    ExpectedBoundVar { index: BoundVarIndex, actual: Node },
    ExpectedAbs { index: AbsIndex, actual: Node },
    ExpectedAbsOrBoundVar { index: BackingIndex, actual: Node },
    AbsIsNoneButHasBoundVars { abs: AbsIndex, contour: Vec<BoundVarIndex> },
    PrevEntranceMismatch {
        abs: AbsIndex,
        entrance_of_abs: BoundVarIndex,
        entrance: BoundVarIndex,
        prev_of_entrance: PrevIndex,
    },
    PrevNextMismatch { node1: BoundVarIndex, next_of_node1: BoundVarIndex, prev_of_node2: PrevIndex },
    LoopDetectedFromPrev { node: BoundVarIndex, prev: BoundVarIndex },
    LoopDetectedFromNext { node: BoundVarIndex, next: BoundVarIndex },
    NodeIsGarbage { node: BackingIndex },
    LoopDetectedInTree { node: BackingIndex },
    BoundVarParentMismatch { bound_var: BoundVariable, parent_edge: ParentEdge, actual_parent: Node },
    MissingParent { bound_var: BoundVariable, bound_var_index: BoundVarIndex },
    ExpectedApp { index: AppIndex, actual: Node },
}

/// The outcome of a contour check.
pub type ContourResult<T> = Result<T, ContourError>;

// The checks of a tree's contours.

/// The nodes reached from `i` within `fuel` steps are positions of the vector.
pub open spec fn ranges_ok(b: Seq<Node>, i: int, fuel: nat) -> bool
    decreases fuel,
{
    fuel == 0 || (0 <= i < b.len() && match b[i] {
        Node::Abs(a) => ranges_ok(b, a.body.0 as int, (fuel - 1) as nat),
        Node::App(a) => ranges_ok(b, a.func.0 as int, (fuel - 1) as nat) && ranges_ok(b, a.arg.0 as int, (fuel - 1) as nat),
        _ => true,
    })
}

/// The positions reached from `i` within `fuel` steps.
pub open spec fn reach(b: Seq<Node>, i: int, fuel: nat) -> Set<int>
    decreases fuel,
{
    if fuel == 0 || i < 0 || i >= b.len() {
        Set::empty()
    } else {
        match b[i] {
            Node::Abs(a) => reach(b, a.body.0 as int, (fuel - 1) as nat).insert(i),
            Node::App(a) => reach(b, a.func.0 as int, (fuel - 1) as nat).union(reach(b, a.arg.0 as int, (fuel - 1) as nat)).insert(i),
            _ => Set::empty().insert(i),
        }
    }
}

/// The nodes reached from `i` form a tree: each of them is reached once, within `fuel` steps.
pub open spec fn is_tree(b: Seq<Node>, i: int, fuel: nat) -> bool
    decreases fuel,
{
    &&& fuel > 0
    &&& 0 <= i < b.len()
    &&& match b[i] {
        Node::Abs(a) => is_tree(b, a.body.0 as int, (fuel - 1) as nat) && !reach(b, a.body.0 as int, (fuel - 1) as nat).contains(i),
        Node::App(a) => {
            let rf = reach(b, a.func.0 as int, (fuel - 1) as nat);
            let ra = reach(b, a.arg.0 as int, (fuel - 1) as nat);
            &&& is_tree(b, a.func.0 as int, (fuel - 1) as nat)
            &&& is_tree(b, a.arg.0 as int, (fuel - 1) as nat)
            &&& rf.disjoint(ra)
            &&& !rf.contains(i)
            &&& !ra.contains(i)
        },
        _ => true,
    }
}

/// The reached positions are in range and finite, and include `i` when it is one.
pub proof fn lemma_reach_basics(b: Seq<Node>, i: int, fuel: nat)
    ensures
        reach(b, i, fuel).finite(),
        forall|k: int| reach(b, i, fuel).contains(k) ==> 0 <= k < b.len(),
        fuel > 0 && 0 <= i < b.len() ==> reach(b, i, fuel).contains(i),
    decreases fuel,
{
    if fuel > 0 && 0 <= i < b.len() {
        match b[i] {
            Node::Abs(a) => {
                lemma_reach_basics(b, a.body.0 as int, (fuel - 1) as nat);
            },
            Node::App(a) => {
                lemma_reach_basics(b, a.func.0 as int, (fuel - 1) as nat);
                lemma_reach_basics(b, a.arg.0 as int, (fuel - 1) as nat);
            },
            _ => {},
        }
    }
}

/// Position `k` is marked live.
pub open spec fn marked(alive: Seq<bool>, k: int) -> bool {
    0 <= k < alive.len() && alive[k]
}

/// The positions marked live.
pub open spec fn marked_set(alive: Seq<bool>) -> Set<int> {
    Set::new(|k: int| marked(alive, k))
}

/// The marked positions are finitely many, at most the length of the marks.
pub proof fn lemma_marked_len(alive: Seq<bool>)
    ensures
        marked_set(alive).finite(),
        marked_set(alive).len() <= alive.len(),
{
    vstd::set_lib::lemma_int_range(0, alive.len() as int);
    assert(marked_set(alive).subset_of(vstd::set_lib::set_int_range(0, alive.len() as int)));
    vstd::set_lib::lemma_len_subset(marked_set(alive), vstd::set_lib::set_int_range(0, alive.len() as int));
}

/// Distinct positions below `n` are at most `n` many.
pub proof fn lemma_distinct_below(s: Seq<int>, n: int)
    requires
        n >= 0,
        s.no_duplicates(),
        forall|j: int| 0 <= j < s.len() ==> 0 <= #[trigger] s[j] < n,
    ensures
        s.len() <= n,
{
    s.unique_seq_to_set();
    vstd::set_lib::lemma_int_range(0, n);
    assert(s.to_set().subset_of(vstd::set_lib::set_int_range(0, n)));
    vstd::set_lib::lemma_len_subset(s.to_set(), vstd::set_lib::set_int_range(0, n));
}

/// Whether `k` is marked live.
fn is_marked(alive: &Vec<bool>, k: BackingIndex) -> (r: bool)
    ensures
        r == marked(alive@, k.0 as int),
{
    let i = k.0 as usize;
    i < alive.len() && alive[i]
}

/// Marks the nodes reached from `node` live, and fails on the first one already marked: the
/// nodes reached do not form a tree, or one of them was reached before.
fn get_alive_nodes(tree: &FlatTree, alive: &mut Vec<bool>, node: BackingIndex, Ghost(fuel): Ghost<nat>) -> (r: ContourResult<()>)
    requires
        old(alive)@.len() == tree.backing@.len(),
        ranges_ok(tree.backing@, node.0 as int, fuel),
        marked_set(old(alive)@).len() + fuel >= tree.backing@.len() + 1,
    ensures
        final(alive)@.len() == tree.backing@.len(),
        r is Ok <==> is_tree(tree.backing@, node.0 as int, fuel) && reach(tree.backing@, node.0 as int, fuel).disjoint(
            marked_set(old(alive)@),
        ),
        r is Ok ==> marked_set(final(alive)@) == marked_set(old(alive)@).union(reach(tree.backing@, node.0 as int, fuel)),
        r matches Err(e) ==> e is LoopDetectedInTree,
        match alive_walk(tree.backing@, marked_set(old(alive)@), node.0 as int, fuel) {
            Ok(m) => r is Ok && marked_set(final(alive)@) == m,
            Err(x) => r == Err::<(), ContourError>(ContourError::LoopDetectedInTree { node: BackingIndex(x as u32) }),
        },
    decreases fuel,
{
    let ghost b = tree.backing@;
    let ghost i = node.0 as int;
    let ghost s0 = marked_set(alive@);
    proof {
        lemma_marked_len(alive@);
        lemma_reach_basics(b, i, fuel);
    }
    let k = node.0 as usize;
    if alive[k] {
        proof {
            assert(s0.contains(i));
        }
        return Err(ContourError::LoopDetectedInTree { node });
    }
    alive.set(k, true);
    let ghost s1 = marked_set(alive@);
    proof {
        assert(s1 =~= s0.insert(i));
        assert(!s0.contains(i));
    }
    match *tree.get(node) {
        Node::Abs(abstraction) => {
            let ghost c = abstraction.body.0 as int;
            let r = get_alive_nodes(tree, alive, abstraction.body, Ghost((fuel - 1) as nat));
            proof {
                lemma_reach_basics(b, c, (fuel - 1) as nat);
                if r is Ok {
                    assert(marked_set(alive@) =~= s0.union(reach(b, i, fuel)));
                }
                assert(reach(b, i, fuel) =~= reach(b, c, (fuel - 1) as nat).insert(i));
                if reach(b, i, fuel).disjoint(s0) {
                    assert(reach(b, c, (fuel - 1) as nat).disjoint(s0));
                }
            }
            r
        },
        Node::App(application) => {
            let ghost f = application.func.0 as int;
            let ghost a = application.arg.0 as int;
            let ghost ff = (fuel - 1) as nat;
            proof {
                lemma_reach_basics(b, f, ff);
                lemma_reach_basics(b, a, ff);
                assert(reach(b, i, fuel) =~= reach(b, f, ff).union(reach(b, a, ff)).insert(i));
            }
            let r1 = get_alive_nodes(tree, alive, application.func, Ghost(ff));
            if r1.is_err() {
                proof {
                    if is_tree(b, i, fuel) && reach(b, i, fuel).disjoint(s0) {
                        assert(reach(b, f, ff).disjoint(s1));
                    }
                }
                return r1;
            }
            let ghost s2 = marked_set(alive@);
            proof {
                lemma_marked_len(alive@);
                assert(s1.subset_of(s2));
                vstd::set_lib::lemma_len_subset(s1, s2);
            }
            let r2 = get_alive_nodes(tree, alive, application.arg, Ghost(ff));
            proof {
                if r2 is Ok {
                    assert(marked_set(alive@) =~= s0.union(reach(b, i, fuel)));
                }
                if is_tree(b, i, fuel) && reach(b, i, fuel).disjoint(s0) {
                    assert(reach(b, a, ff).disjoint(s2));
                }
                if is_tree(b, a, ff) && reach(b, a, ff).disjoint(s2) {
                    assert(reach(b, i, fuel).disjoint(s0));
                }
            }
            r2
        },
        _ => {
            proof {
                assert(reach(b, i, fuel) =~= Set::empty().insert(i));
                assert(marked_set(alive@) =~= s0.union(reach(b, i, fuel)));
            }
            Ok(())
        },
    }
}

/// Position `p` may come before a variable in a contour: a live variable or abstraction.
pub open spec fn prev_ok(b: Seq<Node>, alive: Seq<bool>, p: int) -> bool {
    marked(alive, p) && (b[p] is BoundVar || b[p] is Abs)
}

/// The abstraction reached from the variable at `x` by `prev` links through live variables,
/// within `fuel` links.
pub open spec fn back_end(b: Seq<Node>, alive: Seq<bool>, x: int, fuel: nat) -> Option<int>
    decreases fuel,
{
    if fuel == 0 {
        None
    } else {
        let p = b[x]->BoundVar_0.prev.0 as int;
        if !prev_ok(b, alive, p) {
            None
        } else if b[p] is Abs {
            Some(p)
        } else {
            back_end(b, alive, p, (fuel - 1) as nat)
        }
    }
}

/// From the live variable at `x`, `next` links lead through live variables to the end of the
/// contour within `fuel` links.
pub open spec fn fwd_ok(b: Seq<Node>, alive: Seq<bool>, x: int, fuel: nat) -> bool
    decreases fuel,
{
    &&& fuel > 0
    &&& marked(alive, x)
    &&& b[x] is BoundVar
    &&& match b[x]->BoundVar_0.next {
        None => true,
        Some(y) => fwd_ok(b, alive, y.0.0 as int, (fuel - 1) as nat),
    }
}

/// The variable at `x` is linked into the contour of a live abstraction: its `prev` links
/// lead to one whose contour is not empty, and its `next` links end.
pub open spec fn binding_ok(b: Seq<Node>, alive: Seq<bool>, x: int) -> bool {
    let f = (b.len() + 1) as nat;
    &&& back_end(b, alive, x, f) is Some
    &&& fwd_ok(b, alive, x, f)
    &&& b[back_end(b, alive, x, f)->0]->Abs_0.entrance is Some
}

/// The edge recorded in the variable at `x` leads to it from a live node.
pub open spec fn back_edge_ok(b: Seq<Node>, alive: Seq<bool>, x: int) -> bool {
    match b[x]->BoundVar_0.parent {
        ParentEdge::IntoRoot => false,
        ParentEdge::AbsToBody(a) => marked(alive, a.0.0 as int) && (b[a.0.0 as int] matches Node::Abs(abs) && abs.body.0 == x),
        ParentEdge::AppToFunc(a) => marked(alive, a.0.0 as int) && (b[a.0.0 as int] matches Node::App(app) && app.func.0 == x),
        ParentEdge::AppToArg(a) => marked(alive, a.0.0 as int) && (b[a.0.0 as int] matches Node::App(app) && app.arg.0 == x),
    }
}

/// From the live variable at `x`, each `next` link leads to a live variable that links back
/// to the one before it, until the contour ends within `fuel` links.
pub open spec fn contour_walk(b: Seq<Node>, alive: Seq<bool>, x: int, fuel: nat) -> bool
    decreases fuel,
{
    fuel > 0 && match b[x]->BoundVar_0.next {
        None => true,
        Some(y) => {
            let yi = y.0.0 as int;
            &&& marked(alive, yi)
            &&& b[yi] is BoundVar
            &&& prev_ok(b, alive, b[yi]->BoundVar_0.prev.0 as int)
            &&& b[yi]->BoundVar_0.prev.0 == x
            &&& contour_walk(b, alive, yi, (fuel - 1) as nat)
        },
    }
}

/// The contour of the abstraction at `k` is properly linked: it is empty, or it starts at a
/// live variable that links back to the abstraction and goes on as `contour_walk` says.
pub open spec fn contour_ok(b: Seq<Node>, alive: Seq<bool>, k: int) -> bool {
    match b[k]->Abs_0.entrance {
        None => true,
        Some(e) => {
            let ei = e.0.0 as int;
            &&& marked(alive, ei)
            &&& b[ei] is BoundVar
            &&& prev_ok(b, alive, b[ei]->BoundVar_0.prev.0 as int)
            &&& b[ei]->BoundVar_0.prev.0 == k
            &&& contour_walk(b, alive, ei, (b.len() + 1) as nat)
        },
    }
}

/// Every node reached from `i` within `fuel` steps is properly linked: each variable as
/// `binding_ok` and `back_edge_ok` say, each abstraction as `contour_ok` says.
pub open spec fn links_ok(b: Seq<Node>, alive: Seq<bool>, i: int, fuel: nat) -> bool
    decreases fuel,
{
    &&& fuel > 0
    &&& 0 <= i < b.len()
    &&& match b[i] {
        Node::FreeVar(_) => true,
        Node::BoundVar(_) => binding_ok(b, alive, i) && back_edge_ok(b, alive, i),
        Node::Abs(a) => contour_ok(b, alive, i) && links_ok(b, alive, a.body.0 as int, (fuel - 1) as nat),
        Node::App(a) => links_ok(b, alive, a.func.0 as int, (fuel - 1) as nat) && links_ok(
            b,
            alive,
            a.arg.0 as int,
            (fuel - 1) as nat,
        ),
    }
}

impl FlatTree {
    /// The positions reached from the root, as marks.
    pub open spec fn live(&self) -> Seq<bool> {
        Seq::new(
            self.backing@.len(),
            |k: int| reach(self.backing@, self.root.0 as int, (self.backing@.len() + 1) as nat).contains(k),
        )
    }

    /// The nodes reached from the root form a tree and each of its contours is properly linked.
    pub open spec fn contours_ok(&self) -> bool {
        let f = (self.backing@.len() + 1) as nat;
        &&& is_tree(self.backing@, self.root.0 as int, f)
        &&& links_ok(self.backing@, self.live(), self.root.0 as int, f)
    }
}

// The error that a contour check reports: the first check that fails, in the order the
// checks are made.

/// The error for a position that should hold a live variable or abstraction.
pub open spec fn prev_fault(b: Seq<Node>, alive: Seq<bool>, p: BackingIndex) -> Option<ContourError> {
    if !marked(alive, p.0 as int) {
        Some(ContourError::NodeIsGarbage { node: p })
    } else if b[p.0 as int] is BoundVar || b[p.0 as int] is Abs {
        None
    } else {
        Some(ContourError::ExpectedAbsOrBoundVar { index: p, actual: b[p.0 as int] })
    }
}

/// What a live variable or abstraction at `p` is, as a link before a variable.
pub open spec fn prev_at(b: Seq<Node>, p: BackingIndex) -> PrevIndex {
    if b[p.0 as int] is BoundVar {
        PrevIndex::Var(BoundVarIndex(p))
    } else {
        PrevIndex::Abs(AbsIndex(p))
    }
}

/// The error for a position that should hold a live abstraction.
pub open spec fn abs_fault(b: Seq<Node>, alive: Seq<bool>, x: AbsIndex) -> Option<ContourError> {
    if !marked(alive, x.0.0 as int) {
        Some(ContourError::NodeIsGarbage { node: x.0 })
    } else if b[x.0.0 as int] is Abs {
        None
    } else {
        Some(ContourError::ExpectedAbs { index: x, actual: b[x.0.0 as int] })
    }
}

/// The error for a position that should hold a live application.
pub open spec fn app_fault(b: Seq<Node>, alive: Seq<bool>, x: AppIndex) -> Option<ContourError> {
    if !marked(alive, x.0.0 as int) {
        Some(ContourError::NodeIsGarbage { node: x.0 })
    } else if b[x.0.0 as int] is App {
        None
    } else {
        Some(ContourError::ExpectedApp { index: x, actual: b[x.0.0 as int] })
    }
}

/// The error for a position that should hold a live variable.
pub open spec fn var_fault(b: Seq<Node>, alive: Seq<bool>, x: BoundVarIndex) -> Option<ContourError> {
    if !marked(alive, x.0.0 as int) {
        Some(ContourError::NodeIsGarbage { node: x.0 })
    } else if b[x.0.0 as int] is BoundVar {
        None
    } else {
        Some(ContourError::ExpectedBoundVar { index: x, actual: b[x.0.0 as int] })
    }
}

/// The result as a check reports it: `Ok` with no error, else the error.
pub open spec fn as_result<T>(f: Option<ContourError>, t: T) -> ContourResult<T> {
    match f {
        None => Ok(t),
        Some(e) => Err(e),
    }
}

/// The error for the edge recorded in the live variable at `x`: it must come from a live node
/// whose child there is `x`.
pub open spec fn back_edge_fault(b: Seq<Node>, alive: Seq<bool>, x: BoundVarIndex) -> Option<ContourError> {
    let v = b[x.0.0 as int]->BoundVar_0;
    match v.parent {
        ParentEdge::IntoRoot => Some(ContourError::MissingParent { bound_var: v, bound_var_index: x }),
        ParentEdge::AbsToBody(ai) => if abs_fault(b, alive, ai) is Some {
            abs_fault(b, alive, ai)
        } else if b[ai.0.0 as int]->Abs_0.body != x.0 {
            Some(ContourError::BoundVarParentMismatch { bound_var: v, parent_edge: v.parent, actual_parent: b[ai.0.0 as int] })
        } else {
            None
        },
        ParentEdge::AppToFunc(pi) => if app_fault(b, alive, pi) is Some {
            app_fault(b, alive, pi)
        } else if b[pi.0.0 as int]->App_0.func != x.0 {
            Some(ContourError::BoundVarParentMismatch { bound_var: v, parent_edge: v.parent, actual_parent: b[pi.0.0 as int] })
        } else {
            None
        },
        ParentEdge::AppToArg(pi) => if app_fault(b, alive, pi) is Some {
            app_fault(b, alive, pi)
        } else if b[pi.0.0 as int]->App_0.arg != x.0 {
            Some(ContourError::BoundVarParentMismatch { bound_var: v, parent_edge: v.parent, actual_parent: b[pi.0.0 as int] })
        } else {
            None
        },
    }
}

/// The error along the contour from the live variable at `x`, within `fuel` links: each next
/// variable must be live and link back to the one before it.
pub open spec fn walk_fault(b: Seq<Node>, alive: Seq<bool>, x: BoundVarIndex, fuel: nat) -> Option<ContourError>
    decreases fuel,
{
    if fuel == 0 {
        None
    } else {
        match b[x.0.0 as int]->BoundVar_0.next {
            None => None,
            Some(nx) => if var_fault(b, alive, nx) is Some {
                var_fault(b, alive, nx)
            } else {
                let p = b[nx.0.0 as int]->BoundVar_0.prev;
                if prev_fault(b, alive, p) is Some {
                    prev_fault(b, alive, p)
                } else if prev_at(b, p) != PrevIndex::Var(x) {
                    Some(ContourError::PrevNextMismatch { node1: x, next_of_node1: nx, prev_of_node2: prev_at(b, p) })
                } else {
                    walk_fault(b, alive, nx, (fuel - 1) as nat)
                }
            },
        }
    }
}

/// The error in the contour of the live abstraction at `k`: its first variable must be live
/// and link back to it, and the rest of the contour as `walk_fault` says.
pub open spec fn contour_fault(b: Seq<Node>, alive: Seq<bool>, k: AbsIndex) -> Option<ContourError> {
    match b[k.0.0 as int]->Abs_0.entrance {
        None => None,
        Some(e) => if var_fault(b, alive, e) is Some {
            var_fault(b, alive, e)
        } else {
            let p = b[e.0.0 as int]->BoundVar_0.prev;
            if prev_fault(b, alive, p) is Some {
                prev_fault(b, alive, p)
            } else if prev_at(b, p) != PrevIndex::Abs(k) {
                Some(
                    ContourError::PrevEntranceMismatch {
                        abs: k,
                        entrance_of_abs: e,
                        entrance: e,
                        prev_of_entrance: b[e.0.0 as int]->BoundVar_0.prev_spec(b),
                    },
                )
            } else {
                walk_fault(b, alive, e, (b.len() + 1) as nat)
            }
        },
    }
}

/// Following `prev` links from the live variable at `this` (having passed the variables of
/// `seen`), within `fuel` links: the abstraction reached and the variables passed, or the
/// error met on the way (a link to a node that is neither, or back to a passed variable).
pub open spec fn back_walk(b: Seq<Node>, alive: Seq<bool>, this: BoundVarIndex, seen: Seq<BoundVarIndex>, fuel: nat) -> Result<
    (AbsIndex, Seq<BoundVarIndex>),
    ContourError,
>
    decreases fuel,
{
    if fuel == 0 {
        Err(ContourError::LoopDetectedInTree { node: this.0 })
    } else {
        let p = b[this.0.0 as int]->BoundVar_0.prev;
        if prev_fault(b, alive, p) is Some {
            Err(prev_fault(b, alive, p)->0)
        } else if b[p.0 as int] is BoundVar {
            let pv = BoundVarIndex(p);
            if seen.contains(pv) {
                Err(ContourError::LoopDetectedFromPrev { node: this, prev: pv })
            } else {
                back_walk(b, alive, pv, seen.push(pv), (fuel - 1) as nat)
            }
        } else {
            Ok((AbsIndex(p), seen))
        }
    }
}

/// Following `next` links from `this` (having passed the variables of `seen`), within `fuel`
/// links: the variables passed until the contour ends, or the error met on the way (a link to
/// a node that is not a live variable, or back to a passed one).
pub open spec fn fwd_walk(b: Seq<Node>, alive: Seq<bool>, this: BoundVarIndex, seen: Seq<BoundVarIndex>, fuel: nat) -> Result<
    Seq<BoundVarIndex>,
    ContourError,
>
    decreases fuel,
{
    if fuel == 0 {
        Err(ContourError::LoopDetectedInTree { node: this.0 })
    } else if var_fault(b, alive, this) is Some {
        Err(var_fault(b, alive, this)->0)
    } else {
        match b[this.0.0 as int]->BoundVar_0.next {
            None => Ok(seen),
            Some(nx) => if seen.contains(nx) {
                Err(ContourError::LoopDetectedFromNext { node: this, next: nx })
            } else {
                fwd_walk(b, alive, nx, seen.push(nx), (fuel - 1) as nat)
            },
        }
    }
}

/// The sequence in the opposite order.
pub open spec fn reversed(s: Seq<BoundVarIndex>) -> Seq<BoundVarIndex> {
    Seq::new(s.len(), |i: int| s[s.len() - 1 - i])
}

/// What a contour check finds wrong, as the contracts state it: an error, or an abstraction
/// that records no contour though variables reach it, with the variables of that contour.
pub enum ContourFault {
    Error(ContourError),
    UnrecordedContour(AbsIndex, Seq<BoundVarIndex>),
}

/// The error that reports `f`.
pub open spec fn reports(e: ContourError, f: ContourFault) -> bool {
    match f {
        ContourFault::Error(x) => e == x,
        ContourFault::UnrecordedContour(abs, c) => e matches ContourError::AbsIsNoneButHasBoundVars {
            abs: a2,
            contour,
        } && a2 == abs && contour@ == c,
    }
}

/// The error in how the live variable at `x` is linked into its contour: as `back_walk` and
/// `fwd_walk` find it, or, when the abstraction reached records no contour, the variables
/// of the contour from its start.
pub open spec fn binding_fault(b: Seq<Node>, alive: Seq<bool>, x: BoundVarIndex) -> Option<ContourFault> {
    let ff = (b.len() + 1) as nat;
    match back_walk(b, alive, x, Seq::empty(), ff) {
        Err(e) => Some(ContourFault::Error(e)),
        Ok((abs, bk)) => match fwd_walk(b, alive, x, Seq::empty(), ff + 1) {
            Err(e) => Some(ContourFault::Error(e)),
            Ok(fw) => if b[abs.0.0 as int]->Abs_0.entrance is None {
                Some(ContourFault::UnrecordedContour(abs, reversed(bk) + seq![x] + fw))
            } else {
                None
            },
        },
    }
}

/// Marking the nodes reached from `i` in preorder, within `fuel` steps, on top of `marks`: the
/// marks at the end, or the first node reached a second time.
pub open spec fn alive_walk(b: Seq<Node>, marks: Set<int>, i: int, fuel: nat) -> Result<Set<int>, int>
    decreases fuel,
{
    if fuel == 0 {
        Ok(marks)
    } else if marks.contains(i) {
        Err(i)
    } else {
        let m = marks.insert(i);
        match b[i] {
            Node::Abs(a) => alive_walk(b, m, a.body.0 as int, (fuel - 1) as nat),
            Node::App(a) => match alive_walk(b, m, a.func.0 as int, (fuel - 1) as nat) {
                Err(x) => Err(x),
                Ok(m2) => alive_walk(b, m2, a.arg.0 as int, (fuel - 1) as nat),
            },
            _ => Ok(m),
        }
    }
}

/// What the checks of the nodes reached from `i` within `fuel` steps find first, in preorder
/// with functions before arguments: for a variable its binding, then its edge; for an
/// abstraction its contour, then its body.
pub open spec fn subtree_fault(b: Seq<Node>, alive: Seq<bool>, i: int, fuel: nat) -> Option<ContourFault>
    decreases fuel,
{
    if fuel == 0 {
        None
    } else {
        match b[i] {
            Node::FreeVar(_) => None,
            Node::BoundVar(_) => {
                let x = BoundVarIndex(BackingIndex(i as u32));
                if binding_fault(b, alive, x) is Some {
                    binding_fault(b, alive, x)
                } else {
                    match back_edge_fault(b, alive, x) {
                        Some(e) => Some(ContourFault::Error(e)),
                        None => None,
                    }
                }
            },
            Node::Abs(a) => match contour_fault(b, alive, AbsIndex(BackingIndex(i as u32))) {
                Some(e) => Some(ContourFault::Error(e)),
                None => subtree_fault(b, alive, a.body.0 as int, (fuel - 1) as nat),
            },
            Node::App(a) => if subtree_fault(b, alive, a.func.0 as int, (fuel - 1) as nat) is Some {
                subtree_fault(b, alive, a.func.0 as int, (fuel - 1) as nat)
            } else {
                subtree_fault(b, alive, a.arg.0 as int, (fuel - 1) as nat)
            },
        }
    }
}

impl FlatTree {
    /// What `check_contours` finds first: a node reached twice from the root, else the first
    /// fault in the links of the nodes reached, in preorder.
    pub open spec fn contours_fault(&self) -> Option<ContourFault> {
        let b = self.backing@;
        let f = (b.len() + 1) as nat;
        match alive_walk(b, Set::empty(), self.root.0 as int, f) {
            Err(x) => Some(ContourFault::Error(ContourError::LoopDetectedInTree { node: BackingIndex(x as u32) })),
            Ok(_) => subtree_fault(b, self.live(), self.root.0 as int, f),
        }
    }
}

/// Fails unless `node` is live.
fn check_not_garbage(alive: &Vec<bool>, node: BackingIndex) -> (r: ContourResult<()>)
    ensures
        r == if marked(alive@, node.0 as int) {
            Ok::<(), ContourError>(())
        } else {
            Err(ContourError::NodeIsGarbage { node })
        },
{
    if is_marked(alive, node) {
        Ok(())
    } else {
        Err(ContourError::NodeIsGarbage { node })
    }
}

/// The live variable or abstraction at `index`.
fn check_prev_index(tree: &FlatTree, alive: &Vec<bool>, index: BackingIndex) -> (r: ContourResult<PrevIndex>)
    requires
        alive@.len() == tree.backing@.len(),
    ensures
        r is Ok <==> prev_ok(tree.backing@, alive@, index.0 as int),
        r matches Ok(p) ==> p == if tree.backing@[index.0 as int] is BoundVar {
            PrevIndex::Var(BoundVarIndex(index))
        } else {
            PrevIndex::Abs(AbsIndex(index))
        },
        r == as_result(prev_fault(tree.backing@, alive@, index), prev_at(tree.backing@, index)),
{
    if let Err(e) = check_not_garbage(alive, index) {
        return Err(e);
    }
    match tree.get_ref(index) {
        NodeRef::BoundVar(_, index) => Ok(PrevIndex::Var(index)),
        NodeRef::Abs(_, index) => Ok(PrevIndex::Abs(index)),
        _ => Err(ContourError::ExpectedAbsOrBoundVar { index, actual: *tree.get(index) }),
    }
}

/// The live abstraction at `index`.
fn check_abs_index(tree: &FlatTree, alive: &Vec<bool>, index: AbsIndex) -> (r: ContourResult<Abstraction>)
    requires
        alive@.len() == tree.backing@.len(),
    ensures
        r is Ok <==> marked(alive@, index.0.0 as int) && tree.backing@[index.0.0 as int] is Abs,
        r matches Ok(a) ==> tree.backing@[index.0.0 as int] == Node::Abs(a),
        r matches Err(e) ==> Some(e) == abs_fault(tree.backing@, alive@, index),
{
    if let Err(e) = check_not_garbage(alive, index.0) {
        return Err(e);
    }
    match *tree.get(index.0) {
        Node::Abs(abstraction) => Ok(abstraction),
        node => Err(ContourError::ExpectedAbs { index, actual: node }),
    }
}

/// The live application at `index`.
fn check_app_index(tree: &FlatTree, alive: &Vec<bool>, index: AppIndex) -> (r: ContourResult<Application>)
    requires
        alive@.len() == tree.backing@.len(),
    ensures
        r is Ok <==> marked(alive@, index.0.0 as int) && tree.backing@[index.0.0 as int] is App,
        r matches Ok(a) ==> tree.backing@[index.0.0 as int] == Node::App(a),
        r matches Err(e) ==> Some(e) == app_fault(tree.backing@, alive@, index),
{
    if let Err(e) = check_not_garbage(alive, index.0) {
        return Err(e);
    }
    match *tree.get(index.0) {
        Node::App(application) => Ok(application),
        node => Err(ContourError::ExpectedApp { index, actual: node }),
    }
}

/// The live variable at `index`.
fn check_bound_var_index(tree: &FlatTree, alive: &Vec<bool>, index: BoundVarIndex) -> (r: ContourResult<BoundVariable>)
    requires
        alive@.len() == tree.backing@.len(),
    ensures
        r is Ok <==> marked(alive@, index.0.0 as int) && tree.backing@[index.0.0 as int] is BoundVar,
        r matches Ok(v) ==> tree.backing@[index.0.0 as int] == Node::BoundVar(v),
        r matches Err(e) ==> Some(e) == var_fault(tree.backing@, alive@, index),
{
    if let Err(e) = check_not_garbage(alive, index.0) {
        return Err(e);
    }
    match *tree.get(index.0) {
        Node::BoundVar(bound_variable) => Ok(bound_variable),
        node => Err(ContourError::ExpectedBoundVar { index, actual: node }),
    }
}

/// Checks that the edge recorded in the variable at `bound_var_index` leads to it.
fn check_back_edge(tree: &FlatTree, alive: &Vec<bool>, bound_var_index: BoundVarIndex) -> (r: ContourResult<()>)
    requires
        alive@.len() == tree.backing@.len(),
        marked(alive@, bound_var_index.0.0 as int),
        tree.backing@[bound_var_index.0.0 as int] is BoundVar,
    ensures
        r is Ok <==> back_edge_ok(tree.backing@, alive@, bound_var_index.0.0 as int),
        r == as_result(back_edge_fault(tree.backing@, alive@, bound_var_index), ()),
{
    let bound_var = match check_bound_var_index(tree, alive, bound_var_index) {
        Ok(v) => v,
        Err(e) => return Err(e),
    };
    let parent_edge = bound_var.parent;
    match parent_edge {
        ParentEdge::IntoRoot => {
            return Err(ContourError::MissingParent { bound_var, bound_var_index });
        },
        ParentEdge::AbsToBody(abs_index) => {
            let abs = match check_abs_index(tree, alive, abs_index) {
                Ok(a) => a,
                Err(e) => return Err(e),
            };
            if abs.body != bound_var_index.0 {
                return Err(ContourError::BoundVarParentMismatch { bound_var, parent_edge, actual_parent: Node::Abs(abs) });
            }
        },
        ParentEdge::AppToFunc(app_index) => {
            let app = match check_app_index(tree, alive, app_index) {
                Ok(a) => a,
                Err(e) => return Err(e),
            };
            if app.func != bound_var_index.0 {
                return Err(ContourError::BoundVarParentMismatch { bound_var, parent_edge, actual_parent: Node::App(app) });
            }
        },
        ParentEdge::AppToArg(app_index) => {
            let app = match check_app_index(tree, alive, app_index) {
                Ok(a) => a,
                Err(e) => return Err(e),
            };
            if app.arg != bound_var_index.0 {
                return Err(ContourError::BoundVarParentMismatch { bound_var, parent_edge, actual_parent: Node::App(app) });
            }
        },
    }
    Ok(())
}


/// Distinct variables at positions below `n` are at most `n` many.
proof fn lemma_distinct_vars(s: Seq<BoundVarIndex>, n: int)
    requires
        n >= 0,
        forall|i: int, j: int| 0 <= i < j < s.len() ==> s[i] != s[j],
        forall|j: int| 0 <= j < s.len() ==> 0 <= #[trigger] s[j].0.0 < n,
    ensures
        s.len() <= n,
{
    let t = Seq::new(s.len(), |j: int| s[j].0.0 as int);
    assert(t.no_duplicates()) by {
        assert forall|i: int, j: int| 0 <= i < t.len() && 0 <= j < t.len() && i != j implies t[i] != t[j] by {
            if i < j {
                assert(s[i] != s[j]);
            } else {
                assert(s[j] != s[i]);
            }
        }
    }
    assert forall|j: int| 0 <= j < t.len() implies 0 <= #[trigger] t[j] < n by {
        assert(0 <= s[j].0.0 < n);
    }
    lemma_distinct_below(t, n);
}

/// The end of a chain of `prev` links is a live abstraction.
proof fn lemma_back_end_abs(b: Seq<Node>, alive: Seq<bool>, x: int, f: nat)
    requires
        back_end(b, alive, x, f) is Some,
    ensures
        prev_ok(b, alive, back_end(b, alive, x, f)->0),
        b[back_end(b, alive, x, f)->0] is Abs,
    decreases f,
{
    let p = b[x]->BoundVar_0.prev.0 as int;
    if !(b[p] is Abs) {
        lemma_back_end_abs(b, alive, p, (f - 1) as nat);
    }
}

/// `prev` links that go round a cycle of live variables reach no abstraction.
proof fn lemma_back_cycle(b: Seq<Node>, alive: Seq<bool>, c: Seq<BoundVarIndex>, q: int, f: nat)
    requires
        0 <= q < c.len(),
        forall|j: int| 0 <= j < c.len() ==> marked(alive, #[trigger] c[j].0.0 as int) && b[c[j].0.0 as int] is BoundVar,
        forall|j: int| 0 <= j < c.len() - 1 ==> b[#[trigger] c[j].0.0 as int]->BoundVar_0.prev == c[j + 1].0,
        b[c[c.len() - 1].0.0 as int]->BoundVar_0.prev == c[q].0,
    ensures
        forall|j: int| 0 <= j < c.len() ==> back_end(b, alive, #[trigger] c[j].0.0 as int, f) is None,
    decreases f,
{
    if f > 0 {
        lemma_back_cycle(b, alive, c, q, (f - 1) as nat);
        assert forall|j: int| 0 <= j < c.len() implies back_end(b, alive, #[trigger] c[j].0.0 as int, f) is None by {
            if j < c.len() - 1 {
                assert(back_end(b, alive, c[j + 1].0.0 as int, (f - 1) as nat) is None);
            } else {
                assert(back_end(b, alive, c[q].0.0 as int, (f - 1) as nat) is None);
            }
        }
    }
}

/// `next` links that go round a cycle of live variables never end.
proof fn lemma_fwd_cycle(b: Seq<Node>, alive: Seq<bool>, c: Seq<BoundVarIndex>, q: int, f: nat)
    requires
        0 <= q < c.len(),
        forall|j: int| 0 <= j < c.len() ==> marked(alive, #[trigger] c[j].0.0 as int) && b[c[j].0.0 as int] is BoundVar,
        forall|j: int| 0 <= j < c.len() - 1 ==> b[#[trigger] c[j].0.0 as int]->BoundVar_0.next == Some(c[j + 1]),
        b[c[c.len() - 1].0.0 as int]->BoundVar_0.next == Some(c[q]),
    ensures
        forall|j: int| 0 <= j < c.len() ==> !fwd_ok(b, alive, #[trigger] c[j].0.0 as int, f),
    decreases f,
{
    if f > 0 {
        lemma_fwd_cycle(b, alive, c, q, (f - 1) as nat);
        assert forall|j: int| 0 <= j < c.len() implies !fwd_ok(b, alive, #[trigger] c[j].0.0 as int, f) by {
            if j < c.len() - 1 {
                assert(!fwd_ok(b, alive, c[j + 1].0.0 as int, (f - 1) as nat));
            } else {
                assert(!fwd_ok(b, alive, c[q].0.0 as int, (f - 1) as nat));
            }
        }
    }
}

/// Checks that the variable at `bound_var` is linked into the contour of a live abstraction:
/// its `prev` links lead, without a loop, to an abstraction whose contour is not empty, and its
/// `next` links end without a loop.
fn check_binding_abs(tree: &FlatTree, alive: &Vec<bool>, bound_var: BoundVarIndex) -> (r: ContourResult<()>)
    requires
        alive@.len() == tree.backing@.len(),
        marked(alive@, bound_var.0.0 as int),
        tree.backing@[bound_var.0.0 as int] is BoundVar,
    ensures
        r is Ok <==> binding_ok(tree.backing@, alive@, bound_var.0.0 as int),
        match r {
            Ok(_) => binding_fault(tree.backing@, alive@, bound_var) is None,
            Err(e) => binding_fault(tree.backing@, alive@, bound_var) matches Some(f) && reports(e, f),
        },
{
    let ghost b = tree.backing@;
    let ghost a = alive@;
    let ghost n = b.len() as int;
    let ghost x = bound_var.0.0 as int;
    let ghost ff = (b.len() + 1) as nat;
    let mut contour_backwards: Vec<BoundVarIndex> = Vec::new();
    let mut this_var = bound_var;
    let mut abs_index = AbsIndex(bound_var.0);
    loop
        invariant
            a == alive@,
            b == tree.backing@,
            n == b.len(),
            a.len() == n,
            ff == n + 1,
            x == bound_var.0.0 as int,
            marked(a, this_var.0.0 as int),
            b[this_var.0.0 as int] is BoundVar,
            contour_backwards@.len() <= n,
            forall|i: int, j: int| 0 <= i < j < contour_backwards@.len() ==> contour_backwards@[i] != contour_backwards@[j],
            forall|j: int|
                0 <= j < contour_backwards@.len() ==> marked(a, #[trigger] contour_backwards@[j].0.0 as int) && b[contour_backwards@[j].0.0 as int] is BoundVar,
            this_var == if contour_backwards@.len() == 0 {
                bound_var
            } else {
                contour_backwards@.last()
            },
            contour_backwards@.len() > 0 ==> b[x]->BoundVar_0.prev == contour_backwards@[0].0,
            forall|j: int|
                0 <= j < contour_backwards@.len() - 1 ==> b[#[trigger] contour_backwards@[j].0.0 as int]->BoundVar_0.prev == contour_backwards@[j + 1].0,
            back_end(b, a, x, ff) == back_end(b, a, this_var.0.0 as int, (ff - contour_backwards@.len()) as nat),
            back_walk(b, a, bound_var, Seq::empty(), ff) == back_walk(
                b,
                a,
                this_var,
                contour_backwards@,
                (ff - contour_backwards@.len()) as nat,
            ),
        ensures
            back_end(b, a, x, ff) == Some(abs_index.0.0 as int),
            back_walk(b, a, bound_var, Seq::empty(), ff) == Ok::<(AbsIndex, Seq<BoundVarIndex>), ContourError>((abs_index, contour_backwards@)),
        decreases n - contour_backwards@.len(),
    {
        let bv = *tree.get_bound_var(this_var);
        let ghost k = contour_backwards@.len();
        match check_prev_index(tree, alive, bv.prev) {
            Err(e) => {
                proof {
                    assert(back_end(b, a, this_var.0.0 as int, (ff - k) as nat) is None);
                }
                return Err(e);
            },
            Ok(PrevIndex::Var(prev)) => {
                let mut q: usize = 0;
                while q < contour_backwards.len() && contour_backwards[q] != prev
                    invariant
                        q <= contour_backwards@.len(),
                        forall|j: int| 0 <= j < q ==> contour_backwards@[j] != prev,
                    decreases contour_backwards@.len() - q,
                {
                    q = q + 1;
                }
                proof {
                    if q < contour_backwards.len() {
                        assert(contour_backwards@.contains(prev));
                    } else {
                        assert(!contour_backwards@.contains(prev));
                    }
                }
                if q < contour_backwards.len() {
                    proof {
                        lemma_back_cycle(b, a, contour_backwards@, q as int, (ff - k) as nat);
                        assert(back_end(b, a, contour_backwards@[k - 1].0.0 as int, (ff - k) as nat) is None);
                    }
                    return Err(ContourError::LoopDetectedFromPrev { node: this_var, prev });
                }
                proof {
                    let c2 = contour_backwards@.push(prev);
                    assert forall|i: int, j: int| 0 <= i < j < c2.len() implies c2[i] != c2[j] by {
                        if j < k {
                            assert(c2[i] == contour_backwards@[i] && c2[j] == contour_backwards@[j]);
                        } else {
                            assert(c2[i] == contour_backwards@[i]);
                        }
                    }
                    assert forall|j: int| 0 <= j < c2.len() implies 0 <= #[trigger] c2[j].0.0 < n by {
                        if j < k {
                            assert(c2[j] == contour_backwards@[j]);
                            assert(marked(a, contour_backwards@[j].0.0 as int));
                        }
                    }
                    lemma_distinct_vars(c2, n);
                    assert(back_end(b, a, this_var.0.0 as int, (ff - k) as nat) == back_end(b, a, prev.0.0 as int, (ff - k - 1) as nat));
                }
                contour_backwards.push(prev);
                this_var = prev;
                proof {
                    assert forall|j: int| 0 <= j < contour_backwards@.len() - 1 implies b[#[trigger] contour_backwards@[j].0.0 as int]->BoundVar_0.prev
                        == contour_backwards@[j + 1].0 by {
                        if j < k - 1 {
                            assert(contour_backwards@[j] == contour_backwards@.drop_last()[j]);
                        }
                    }
                }
            },
            Ok(PrevIndex::Abs(abs)) => {
                abs_index = abs;
                break;
            },
        }
    }
    let mut contour_forwards: Vec<BoundVarIndex> = Vec::new();
    let mut this_var = bound_var;
    loop
        invariant
            a == alive@,
            b == tree.backing@,
            n == b.len(),
            a.len() == n,
            ff == n + 1,
            x == bound_var.0.0 as int,
            marked(a, x),
            b[x] is BoundVar,
            back_end(b, a, x, ff) == Some(abs_index.0.0 as int),
            contour_forwards@.len() <= n + 1,
            forall|i: int, j: int| 0 <= i < j < contour_forwards@.len() ==> contour_forwards@[i] != contour_forwards@[j],
            forall|j: int|
                0 <= j < contour_forwards@.len() - 1 ==> marked(a, #[trigger] contour_forwards@[j].0.0 as int) && b[contour_forwards@[j].0.0 as int] is BoundVar,
            this_var == if contour_forwards@.len() == 0 {
                bound_var
            } else {
                contour_forwards@.last()
            },
            contour_forwards@.len() > 0 ==> b[x]->BoundVar_0.next == Some(contour_forwards@[0]),
            forall|j: int|
                0 <= j < contour_forwards@.len() - 1 ==> b[#[trigger] contour_forwards@[j].0.0 as int]->BoundVar_0.next == Some(contour_forwards@[j + 1]),
            fwd_ok(b, a, x, ff) == fwd_ok(b, a, this_var.0.0 as int, (ff - contour_forwards@.len()) as nat),
            fwd_walk(b, a, bound_var, Seq::empty(), ff + 1) == fwd_walk(
                b,
                a,
                this_var,
                contour_forwards@,
                (ff + 1 - contour_forwards@.len()) as nat,
            ),
            back_walk(b, a, bound_var, Seq::empty(), ff) == Ok::<(AbsIndex, Seq<BoundVarIndex>), ContourError>((abs_index, contour_backwards@)),
        ensures
            fwd_ok(b, a, x, ff),
            fwd_walk(b, a, bound_var, Seq::empty(), ff + 1) == Ok::<Seq<BoundVarIndex>, ContourError>(contour_forwards@),
        decreases n + 1 - contour_forwards@.len(),
    {
        let ghost k = contour_forwards@.len();
        let bv = match check_bound_var_index(tree, alive, this_var) {
            Ok(v) => v,
            Err(e) => {
                return Err(e);
            },
        };
        proof {
            assert forall|j: int| 0 <= j < k implies 0 <= #[trigger] contour_forwards@[j].0.0 < n by {
                if j < k - 1 {
                    assert(marked(a, contour_forwards@[j].0.0 as int));
                }
            }
            lemma_distinct_vars(contour_forwards@, n);
        }
        match bv.next {
            Some(next) => {
                let mut q: usize = 0;
                while q < contour_forwards.len() && contour_forwards[q] != next
                    invariant
                        q <= contour_forwards@.len(),
                        forall|j: int| 0 <= j < q ==> contour_forwards@[j] != next,
                    decreases contour_forwards@.len() - q,
                {
                    q = q + 1;
                }
                proof {
                    if q < contour_forwards.len() {
                        assert(contour_forwards@.contains(next));
                    } else {
                        assert(!contour_forwards@.contains(next));
                    }
                }
                if q < contour_forwards.len() {
                    proof {
                        assert forall|j: int| 0 <= j < k implies marked(a, #[trigger] contour_forwards@[j].0.0 as int) && b[contour_forwards@[j].0.0 as int] is BoundVar by {}
                        lemma_fwd_cycle(b, a, contour_forwards@, q as int, (ff - k) as nat);
                        assert(!fwd_ok(b, a, contour_forwards@[k - 1].0.0 as int, (ff - k) as nat));
                    }
                    return Err(ContourError::LoopDetectedFromNext { node: this_var, next });
                }
                proof {
                    assert(fwd_ok(b, a, this_var.0.0 as int, (ff - k) as nat) == fwd_ok(b, a, next.0.0 as int, (ff - k - 1) as nat));
                }
                contour_forwards.push(next);
                this_var = next;
                proof {
                    assert forall|j: int| 0 <= j < contour_forwards@.len() - 1 implies b[#[trigger] contour_forwards@[j].0.0 as int]->BoundVar_0.next
                        == Some(contour_forwards@[j + 1]) by {
                        if j < k - 1 {
                            assert(contour_forwards@[j] == contour_forwards@.drop_last()[j]);
                        }
                    }
                    assert forall|j: int| 0 <= j < contour_forwards@.len() - 1 implies marked(a, #[trigger] contour_forwards@[j].0.0 as int)
                        && b[contour_forwards@[j].0.0 as int] is BoundVar by {
                        if j < k - 1 {
                            assert(contour_forwards@[j] == contour_forwards@.drop_last()[j]);
                        }
                    }
                    assert forall|i: int, j: int| 0 <= i < j < contour_forwards@.len() implies contour_forwards@[i] != contour_forwards@[j] by {
                        if j < k {
                            assert(contour_forwards@[i] == contour_forwards@.drop_last()[i]);
                            assert(contour_forwards@[j] == contour_forwards@.drop_last()[j]);
                        } else {
                            assert(contour_forwards@[i] == contour_forwards@.drop_last()[i]);
                        }
                    }
                }
            },
            None => {
                break;
            },
        }
    }
    proof {
        lemma_back_end_abs(b, a, x, ff);
    }
    let abs = match check_abs_index(tree, alive, abs_index) {
        Ok(a) => a,
        Err(e) => {
            return Err(e);
        },
    };
    if abs.entrance.is_none() {
        let mut contour: Vec<BoundVarIndex> = Vec::new();
        let mut k = contour_backwards.len();
        while k > 0
            invariant
                k <= contour_backwards@.len(),
                contour@.len() == contour_backwards@.len() - k,
                forall|i: int| 0 <= i < contour@.len() ==> contour@[i] == contour_backwards@[contour_backwards@.len() - 1 - i],
            decreases k,
        {
            k = k - 1;
            contour.push(contour_backwards[k]);
        }
        contour.push(bound_var);
        proof {
            assert(contour@ =~= reversed(contour_backwards@) + seq![bound_var]);
        }
        let mut j: usize = 0;
        while j < contour_forwards.len()
            invariant
                j <= contour_forwards@.len(),
                contour@ == reversed(contour_backwards@) + seq![bound_var] + contour_forwards@.subrange(0, j as int),
            decreases contour_forwards@.len() - j,
        {
            proof {
                assert(contour_forwards@.subrange(0, j as int + 1) =~= contour_forwards@.subrange(0, j as int).push(contour_forwards@[j as int]));
            }
            contour.push(contour_forwards[j]);
            j = j + 1;
        }
        proof {
            assert(contour_forwards@.subrange(0, j as int) =~= contour_forwards@);
        }
        return Err(ContourError::AbsIsNoneButHasBoundVars { abs: abs_index, contour });
    }
    Ok(())
}

/// Checks that the contour of the live abstraction `abs` at `abs_idx` is properly linked: its
/// first variable links back to it, and each next one links back to the one before.
fn check_contour(tree: &FlatTree, alive: &Vec<bool>, abs: Abstraction, abs_idx: AbsIndex) -> (r: ContourResult<()>)
    requires
        alive@.len() == tree.backing@.len(),
        marked(alive@, abs_idx.0.0 as int),
        tree.backing@[abs_idx.0.0 as int] == Node::Abs(abs),
    ensures
        r is Ok <==> contour_ok(tree.backing@, alive@, abs_idx.0.0 as int),
        r == as_result(contour_fault(tree.backing@, alive@, abs_idx), ()),
{
    let ghost b = tree.backing@;
    let ghost a = alive@;
    let ghost n = b.len() as int;
    let ghost k = abs_idx.0.0 as int;
    let ghost ff = (b.len() + 1) as nat;
    if let Some(entrance) = abs.entrance {
        let node1 = match check_bound_var_index(tree, alive, entrance) {
            Ok(v) => v,
            Err(e) => {
                return Err(e);
            },
        };
        let prev_of_node1 = match check_prev_index(tree, alive, node1.prev) {
            Ok(p) => p,
            Err(e) => {
                return Err(e);
            },
        };
        if prev_of_node1 != PrevIndex::Abs(abs_idx) {
            return Err(
                ContourError::PrevEntranceMismatch {
                    abs: abs_idx,
                    entrance_of_abs: entrance,
                    entrance,
                    prev_of_entrance: node1.prev(tree),
                },
            );
        }
        let mut node1_idx = entrance;
        let ghost mut full: Seq<BoundVarIndex> = seq![entrance];
        proof {
            lemma_distinct_vars(full, n);
        }
        loop
            invariant
                a == alive@,
                b == tree.backing@,
                n == b.len(),
                a.len() == n,
                ff == n + 1,
                k == abs_idx.0.0 as int,
                b[k] == Node::Abs(abs),
                abs.entrance == Some(entrance),
                1 <= full.len() <= n,
                full[0] == entrance,
                full.last() == node1_idx,
                b[entrance.0.0 as int]->BoundVar_0.prev.0 == k,
                forall|j: int| 0 <= j < full.len() ==> marked(a, #[trigger] full[j].0.0 as int) && b[full[j].0.0 as int] is BoundVar,
                forall|i: int, j: int| 0 <= i < j < full.len() ==> full[i] != full[j],
                forall|j: int| 1 <= j < full.len() ==> b[#[trigger] full[j].0.0 as int]->BoundVar_0.prev == full[j - 1].0,
                contour_walk(b, a, entrance.0.0 as int, ff) == contour_walk(
                    b,
                    a,
                    node1_idx.0.0 as int,
                    (ff - (full.len() - 1)) as nat,
                ),
                walk_fault(b, a, entrance, ff) == walk_fault(b, a, node1_idx, (ff - (full.len() - 1)) as nat),
                contour_fault(b, a, abs_idx) == walk_fault(b, a, entrance, ff),
            ensures
                contour_walk(b, a, entrance.0.0 as int, ff),
                walk_fault(b, a, entrance, ff) is None,
            decreases n - full.len(),
        {
            let node1 = *tree.get_bound_var(node1_idx);
            match node1.next {
                Some(next_of_node1) => {
                    let ghost fw = (ff - (full.len() - 1)) as nat;
                    proof {
                        assert(fw >= 1);
                        assert(b[node1_idx.0.0 as int] == Node::BoundVar(node1));
                    }
                    let node2 = match check_bound_var_index(tree, alive, next_of_node1) {
                        Ok(v) => v,
                        Err(e) => {
                            proof {
                                assert(!contour_walk(b, a, node1_idx.0.0 as int, fw));
                            }
                            return Err(e);
                        },
                    };
                    let prev_of_node2 = match check_prev_index(tree, alive, node2.prev) {
                        Ok(p) => p,
                        Err(e) => {
                            proof {
                                assert(!contour_walk(b, a, node1_idx.0.0 as int, fw));
                            }
                            return Err(e);
                        },
                    };
                    if prev_of_node2 != PrevIndex::Var(node1_idx) {
                        return Err(ContourError::PrevNextMismatch { node1: node1_idx, next_of_node1, prev_of_node2 });
                    }
                    proof {
                        let len = full.len();
                        assert forall|j: int| 0 <= j < len implies full[j] != next_of_node1 by {
                            if full[j] == next_of_node1 {
                                if j == 0 {
                                    assert(b[node1_idx.0.0 as int] is BoundVar);
                                } else {
                                    assert(full[j - 1].0 == node1_idx.0);
                                    assert(full[j - 1] == full[len - 1]);
                                }
                            }
                        }
                        let f2 = full.push(next_of_node1);
                        assert forall|i: int, j: int| 0 <= i < j < f2.len() implies f2[i] != f2[j] by {
                            if j < len {
                                assert(f2[i] == full[i] && f2[j] == full[j]);
                            } else {
                                assert(f2[i] == full[i]);
                            }
                        }
                        assert forall|j: int| 0 <= j < f2.len() implies 0 <= #[trigger] f2[j].0.0 < n by {
                            if j < len {
                                assert(f2[j] == full[j]);
                                assert(marked(a, full[j].0.0 as int));
                            }
                        }
                        lemma_distinct_vars(f2, n);
                        assert(contour_walk(b, a, node1_idx.0.0 as int, (ff - (len - 1)) as nat) == contour_walk(
                            b,
                            a,
                            next_of_node1.0.0 as int,
                            (ff - len) as nat,
                        ));
                        full = f2;
                    }
                    node1_idx = next_of_node1;
                },
                None => {
                    break;
                },
            }
        }
    }
    Ok(())
}

/// Checks the links of every node reached from `node`: each variable as `check_binding_abs`
/// and `check_back_edge` do, each abstraction as `check_contour` does.
fn check_subtree(tree: &FlatTree, alive: &Vec<bool>, node: BackingIndex, Ghost(fuel): Ghost<nat>) -> (r: ContourResult<()>)
    requires
        alive@.len() == tree.backing@.len(),
        is_tree(tree.backing@, node.0 as int, fuel),
        forall|k: int| reach(tree.backing@, node.0 as int, fuel).contains(k) ==> marked(alive@, k),
    ensures
        r is Ok <==> links_ok(tree.backing@, alive@, node.0 as int, fuel),
        match r {
            Ok(_) => subtree_fault(tree.backing@, alive@, node.0 as int, fuel) is None,
            Err(e) => subtree_fault(tree.backing@, alive@, node.0 as int, fuel) matches Some(f) && reports(e, f),
        },
    decreases fuel,
{
    proof {
        lemma_reach_basics(tree.backing@, node.0 as int, fuel);
    }
    match tree.get_ref(node) {
        NodeRef::FreeVar(_, _) => Ok(()),
        NodeRef::BoundVar(_, bound_var) => {
            if let Err(e) = check_binding_abs(tree, alive, bound_var) {
                return Err(e);
            }
            check_back_edge(tree, alive, bound_var)
        },
        NodeRef::Abs(abstraction, abs_idx) => {
            if let Err(e) = check_contour(tree, alive, *abstraction, abs_idx) {
                return Err(e);
            }
            check_subtree(tree, alive, abstraction.body, Ghost((fuel - 1) as nat))
        },
        NodeRef::App(application, _) => {
            if let Err(e) = check_subtree(tree, alive, application.func, Ghost((fuel - 1) as nat)) {
                return Err(e);
            }
            check_subtree(tree, alive, application.arg, Ghost((fuel - 1) as nat))
        },
    }
}

/// Checks that the nodes reached from the root form a tree and that every contour in it is
/// properly linked; fails with the first problem found.
pub fn check_contours(tree: &FlatTree) -> (r: ContourResult<()>)
    requires
        ranges_ok(tree.backing@, tree.root.0 as int, (tree.backing@.len() + 1) as nat),
    ensures
        r is Ok <==> tree.contours_ok(),
        match r {
            Ok(_) => tree.contours_fault() is None,
            Err(e) => tree.contours_fault() matches Some(f) && reports(e, f),
        },
{
    let n = tree.backing.len();
    let mut alive: Vec<bool> = Vec::new();
    let mut k: usize = 0;
    while k < n
        invariant
            k <= n,
            n == tree.backing@.len(),
            alive@.len() == k,
            forall|j: int| 0 <= j < k ==> !alive@[j],
        decreases n - k,
    {
        alive.push(false);
        k = k + 1;
    }
    let ghost f = (n + 1) as nat;
    proof {
        assert(marked_set(alive@) =~= Set::<int>::empty());
    }
    if let Err(e) = get_alive_nodes(tree, &mut alive, tree.root, Ghost(f)) {
        return Err(e);
    }
    proof {
        let r = reach(tree.backing@, tree.root.0 as int, f);
        assert forall|j: int| 0 <= j < n implies alive@[j] == r.contains(j) by {
            assert(marked_set(alive@).contains(j) == r.contains(j));
        }
        assert(alive@ =~= tree.live());
        assert forall|j: int| r.contains(j) implies marked(alive@, j) by {
            assert(marked_set(alive@).contains(j));
        }
    }
    check_subtree(tree, &alive, tree.root, Ghost(f))
}

/// Whether the nodes reached from the root form a tree: no node is reached twice.
pub fn check_tree(tree: &FlatTree) -> (r: bool)
    requires
        ranges_ok(tree.backing@, tree.root.0 as int, (tree.backing@.len() + 1) as nat),
    ensures
        r == is_tree(tree.backing@, tree.root.0 as int, (tree.backing@.len() + 1) as nat),
{
    let n = tree.backing.len();
    let mut alive: Vec<bool> = Vec::new();
    let mut k: usize = 0;
    while k < n
        invariant
            k <= n,
            n == tree.backing@.len(),
            alive@.len() == k,
            forall|j: int| 0 <= j < k ==> !alive@[j],
        decreases n - k,
    {
        alive.push(false);
        k = k + 1;
    }
    proof {
        assert(marked_set(alive@) =~= Set::<int>::empty());
    }
    get_alive_nodes(tree, &mut alive, tree.root, Ghost((n + 1) as nat)).is_ok()
}

} // verus!
