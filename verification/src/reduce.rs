//! Leftmost-outermost reduction of a contour `FlatTree`: a walk that finds redexes in preorder,
//! and a reducer that contracts the first redex of the tree, step by step.
use vstd::prelude::*;

use crate::beta_reduce::{beta_reduce, redex_spec, redexes_spec, RedexMut};
use crate::contour_edit::{contours_linked, entrances_ok};
use crate::debruijn::Debruijn;
use crate::print::{debruijn_text, PrintContext};
use crate::flat_tree::{
    flatten, heights_fit, is_tree, node_view, normalize_into, unflatten, AbsIndex, AppIndex,
    BackingIndex, FlatTree, Node, NodeRef, ParentEdge,
};
use crate::reduce_facts::{
    heights_le, lemma_contraction_room, lemma_first_contraction_is_step,
    lemma_no_redex_normal, lemma_redex_not_normal,
};
use crate::reference::{is_normal, step, step_ok, steps};
use crate::subst_facts::bound_count;
use crate::tree_facts::reach_size;
use crate::utils::Rng;

verus! {

/// The outcome of one step of a walk.
pub enum WalkResult {
    /// The walk is over.
    StackIsEmpty,
    /// The step found no redex.
    Nothing,
    /// The step found this redex.
    Found(RedexMut),
}

/// A node still to be visited, or revisited, by the walk.
#[derive(Debug, Clone, Copy, PartialEq, Eq, Structural)]
pub struct WalkFrame {
    pub index: BackingIndex,
    pub parent: ParentEdge,
    pub depth: usize,
    pub state: WalkState,
}

/// Which visit of an application comes next: before its function, before its argument, or
/// after both.
#[derive(Debug, Clone, Copy, PartialEq, Eq, Structural)]
pub enum WalkState {
    FirstVisit,
    SecondVisit,
    ThirdVisit,
}

impl WalkFrame {
    /// The first visit of a node.
    pub open spec fn first_spec(index: BackingIndex, parent: ParentEdge, depth: usize) -> WalkFrame {
        WalkFrame { index, parent, depth, state: WalkState::FirstVisit }
    }

    fn first_visit(index: BackingIndex, parent: ParentEdge, depth: usize) -> (f: WalkFrame)
        ensures
            f == WalkFrame::first_spec(index, parent, depth),
    {
        WalkFrame { index, parent, depth, state: WalkState::FirstVisit }
    }

    fn second_visit(frame: WalkFrame) -> (f: WalkFrame)
        ensures
            f == (WalkFrame { state: WalkState::SecondVisit, ..frame }),
    {
        WalkFrame { state: WalkState::SecondVisit, ..frame }
    }

    fn third_visit(frame: WalkFrame) -> (f: WalkFrame)
        ensures
            f == (WalkFrame { state: WalkState::ThirdVisit, ..frame }),
    {
        WalkFrame { state: WalkState::ThirdVisit, ..frame }
    }
}

/// One step of the walk from the stack `s`: what it finds and the stack after it. The top
/// frame is taken off; an abstraction puts its body on, an application on its first visit is
/// a redex found or puts back its second visit and its function, on its second visit puts back
/// its third and its argument.
pub open spec fn walk_step(b: Seq<Node>, s: Seq<WalkFrame>) -> (WalkResult, Seq<WalkFrame>) {
    if s.len() == 0 {
        (WalkResult::StackIsEmpty, s)
    } else {
        let f = s.last();
        let rest = s.drop_last();
        match b[f.index.0 as int] {
            Node::Abs(abs) => (
                WalkResult::Nothing,
                rest.push(WalkFrame::first_spec(abs.body, ParentEdge::AbsToBody(AbsIndex(f.index)), (f.depth + 1) as usize)),
            ),
            Node::App(app) => match f.state {
                WalkState::FirstVisit => match redex_spec(b, f.depth, f.parent, f.index) {
                    Some(r) => (WalkResult::Found(r), rest),
                    None => (
                        WalkResult::Nothing,
                        rest.push(WalkFrame { state: WalkState::SecondVisit, ..f }).push(
                            WalkFrame::first_spec(app.func, ParentEdge::AppToFunc(AppIndex(f.index)), f.depth),
                        ),
                    ),
                },
                WalkState::SecondVisit => (
                    WalkResult::Nothing,
                    rest.push(WalkFrame { state: WalkState::ThirdVisit, ..f }).push(
                        WalkFrame::first_spec(app.arg, ParentEdge::AppToArg(AppIndex(f.index)), f.depth),
                    ),
                ),
                WalkState::ThirdVisit => (WalkResult::Nothing, rest),
            },
            _ => (WalkResult::Nothing, rest),
        }
    }
}

/// The top frame of `s` can be visited in `b`: its node is in range, an application's function
/// too, and an abstraction's depth can be counted one further.
pub open spec fn top_ok(b: Seq<Node>, s: Seq<WalkFrame>) -> bool {
    s.len() > 0 ==> {
        let f = s.last();
        &&& f.index.0 < b.len()
        &&& b[f.index.0 as int] matches Node::App(app) ==> app.func.0 < b.len()
        &&& b[f.index.0 as int] is Abs ==> f.depth < usize::MAX
    }
}

/// The state of a walk that finds redexes in preorder.
pub struct WalkContext {
    pub stack: Vec<WalkFrame>,
}

impl WalkContext {
    /// Puts a frame on the stack.
    pub fn push(&mut self, node: WalkFrame)
        ensures
            final(self).stack@ == old(self).stack@.push(node),
    {
        self.stack.push(node);
    }

    /// The top frame, if any.
    pub fn peek(&self) -> (r: Option<WalkFrame>)
        ensures
            r == if self.stack@.len() == 0 {
                None
            } else {
                Some(self.stack@.last())
            },
    {
        let n = self.stack.len();
        if n == 0 {
            None
        } else {
            Some(self.stack[n - 1])
        }
    }

    /// Takes the top frame off, if any.
    pub fn pop(&mut self) -> (r: Option<WalkFrame>)
        ensures
            old(self).stack@.len() == 0 ==> r is None && final(self).stack@ == old(self).stack@,
            old(self).stack@.len() > 0 ==> r == Some(old(self).stack@.last()) && final(self).stack@ == old(
                self,
            ).stack@.drop_last(),
    {
        self.stack.pop()
    }

    /// A walk that starts at the root.
    pub fn new(tree: &FlatTree) -> (w: WalkContext)
        ensures
            w.stack@ == seq![WalkFrame::first_spec(tree.root, ParentEdge::IntoRoot, 0)],
    {
        WalkContext { stack: vec![WalkFrame::first_visit(tree.root, ParentEdge::IntoRoot, 0)] }
    }

    /// Takes one step of the walk, as `walk_step` says.
    pub fn walk_one(&mut self, tree: &FlatTree) -> (r: WalkResult)
        requires
            top_ok(tree.backing@, old(self).stack@),
        ensures
            (r, final(self).stack@) == walk_step(tree.backing@, old(self).stack@),
    {
        if let Some(frame) = self.pop() {
            let WalkFrame { index, parent, depth, state } = frame;
            match tree.get_ref(index) {
                NodeRef::BoundVar(_, _) => {},
                NodeRef::FreeVar(_, _) => {},
                NodeRef::Abs(abstraction, index) => {
                    self.push(WalkFrame::first_visit(abstraction.body, ParentEdge::AbsToBody(index), depth + 1));
                },
                NodeRef::App(application, app_index) => {
                    match state {
                        WalkState::FirstVisit => {
                            if let Some(redex) = RedexMut::try_get(tree, depth, parent, app_index.0) {
                                return WalkResult::Found(redex);
                            } else {
                                self.push(WalkFrame::second_visit(frame));
                                self.push(WalkFrame::first_visit(application.func, ParentEdge::AppToFunc(app_index), depth));
                            }
                        },
                        WalkState::SecondVisit => {
                            self.push(WalkFrame::third_visit(frame));
                            self.push(WalkFrame::first_visit(application.arg, ParentEdge::AppToArg(app_index), depth));
                        },
                        WalkState::ThirdVisit => {},
                    }
                },
            }
            WalkResult::Nothing
        } else {
            WalkResult::StackIsEmpty
        }
    }
}

/// The largest height of a free variable in the vector, or zero.
fn max_free_height(tree: &FlatTree) -> (h: u32)
    ensures
        heights_le(tree.backing@, h as int),
        h == 0 || exists|k: int|
            0 <= k < tree.backing@.len() && (#[trigger] tree.backing@[k]) is FreeVar && tree.backing@[k]->FreeVar_0.height == h,
{
    let ghost b = tree.backing@;
    let n = tree.backing.len();
    let mut h: u32 = 0;
    let mut k: usize = 0;
    while k < n
        invariant
            k <= n,
            n == b.len(),
            b == tree.backing@,
            forall|j: int| 0 <= j < k && (#[trigger] b[j]) is FreeVar ==> b[j]->FreeVar_0.height <= h,
            h == 0 || exists|j: int| 0 <= j < b.len() && (#[trigger] b[j]) is FreeVar && b[j]->FreeVar_0.height == h,
        decreases n - k,
    {
        if let Node::FreeVar(v) = &tree.backing[k] {
            if v.height > h {
                h = v.height;
                assert(b[k as int] is FreeVar);
            }
        }
        k = k + 1;
    }
    h
}

/// Whether `t` nests at most `limit` abstractions.
fn depth_at_most(t: &Debruijn, limit: usize) -> (r: bool)
    ensures
        r == (t.abs_depth() <= limit),
    decreases t,
{
    match t {
        Debruijn::Index(_) => true,
        Debruijn::Application { func, arg } => depth_at_most(func, limit) && depth_at_most(arg, limit),
        Debruijn::Abstraction { body } => limit > 0 && depth_at_most(body, limit - 1),
    }
}

/// `n`, or `u32::MAX` if it is larger.
pub open spec fn capped(n: nat) -> int {
    if n < u32::MAX {
        n as int
    } else {
        u32::MAX as int
    }
}

/// The number of nodes of the tree at `i`, capped at `u32::MAX`.
fn reach_size_capped(tree: &FlatTree, i: BackingIndex, Ghost(fuel): Ghost<nat>) -> (r: u64)
    requires
        is_tree(tree.backing@, i.0 as int, fuel),
    ensures
        r as int == capped(reach_size(tree.backing@, i.0 as int, fuel)),
    decreases fuel,
{
    let cap: u64 = u32::MAX as u64;
    match tree.get(i) {
        Node::Abs(a) => {
            let s = reach_size_capped(tree, a.body, Ghost((fuel - 1) as nat));
            if s + 1 < cap { s + 1 } else { cap }
        },
        Node::App(a) => {
            let f = reach_size_capped(tree, a.func, Ghost((fuel - 1) as nat));
            let g = reach_size_capped(tree, a.arg, Ghost((fuel - 1) as nat));
            if f + g + 1 < cap { f + g + 1 } else { cap }
        },
        _ => 1,
    }
}

/// The number of variables bound to `f` in the tree at `i`, capped at `u32::MAX`.
fn bound_count_capped(tree: &FlatTree, f: AbsIndex, i: BackingIndex, Ghost(fuel): Ghost<nat>, Ghost(chain): Ghost<Seq<AbsIndex>>) -> (r: u64)
    requires
        is_tree(tree.backing@, i.0 as int, fuel),
        node_view(tree.backing@, i.0 as int, chain, fuel) is Some,
    ensures
        r as int == capped(bound_count(tree.backing@, f, i.0 as int, fuel)),
    decreases fuel,
{
    let cap: u64 = u32::MAX as u64;
    match tree.get(i) {
        Node::BoundVar(v) => {
            let a = tree.get_binding_abs(v);
            if a.0.0 == f.0.0 {
                1
            } else {
                0
            }
        },
        Node::Abs(a) => {
            let ghost c2 = chain.push(AbsIndex(BackingIndex(i.0)));
            bound_count_capped(tree, f, a.body, Ghost((fuel - 1) as nat), Ghost(c2))
        },
        Node::App(a) => {
            let x = bound_count_capped(tree, f, a.func, Ghost((fuel - 1) as nat), Ghost(chain));
            let y = bound_count_capped(tree, f, a.arg, Ghost((fuel - 1) as nat), Ghost(chain));
            if x + y < cap { x + y } else { cap }
        },
        _ => 0,
    }
}

/// Whether the tree has room for the copies of the argument that contracting `r` makes.
fn room_check(tree: &FlatTree, r: &RedexMut) -> (ok: bool)
    requires
        tree.well_formed(),
        tree.holds_redex(*r),
        is_tree(tree.backing@, r.app_index.0 as int, tree.tree_fuel()),
        node_view(tree.backing@, r.app_index.0 as int, tree.redex_place(*r).0, tree.tree_fuel()) is Some,
    ensures
        ok == tree.room_for(*r),
{
    let ghost b = tree.backing@;
    let ghost ff = tree.tree_fuel();
    let ghost c = tree.redex_place(*r).0;
    let ghost app = r.app_index.0 as int;
    let ghost func = r.func_index.0.0 as int;
    proof {
        assert(b[app] is App);
        assert(b[func] is Abs);
        assert(is_tree(b, func, (ff - 1) as nat));
        assert(node_view(b, func, c, (ff - 1) as nat) is Some);
        assert(AbsIndex(BackingIndex(func as u32)) == r.func_index);
        assert(node_view(b, r.body_index.0 as int, c.push(r.func_index), (ff - 2) as nat) is Some);
        crate::tree_facts::lemma_tree_within(b, r.body_index.0 as int, (ff - 2) as nat);
        crate::subst_facts::lemma_count_fuel(b, r.func_index, r.body_index.0 as int, (ff - 2) as nat, ff);
        crate::tree_facts::lemma_tree_fuel(b, r.arg_index.0 as int, (ff - 1) as nat, ff);
    }
    let bc = bound_count_capped(tree, r.func_index, r.body_index, Ghost((ff - 2) as nat), Ghost(c.push(r.func_index)));
    let rs = reach_size_capped(tree, r.arg_index, Ghost((ff - 1) as nat));
    let n = tree.backing.len() as u64;
    let cap: u64 = u32::MAX as u64;
    proof {
        let bcs = bound_count(b, r.func_index, r.body_index.0 as int, ff) as int;
        let rss = reach_size(b, r.arg_index.0 as int, ff) as int;
        assert(rss >= 1);
        let bi = bc as int;
        let ri = rs as int;
        let ni = n as int;
        assert(bi * ri <= 4294967295 * 4294967295) by (nonlinear_arith)
            requires
                0 <= bi <= 4294967295,
                0 <= ri <= 4294967295,
        ;
        assert((ni + bi * ri < 4294967295) == (ni + bcs * rss < 4294967295)) by (nonlinear_arith)
            requires
                bcs >= 0,
                rss >= 1,
                ni >= 0,
                bcs < 4294967295 ==> bi == bcs,
                bcs >= 4294967295 ==> bi == 4294967295,
                rss < 4294967295 ==> ri == rss,
                rss >= 4294967295 ==> ri == 4294967295,
        ;
    }
    n + bc * rs < cap
}

/// The redexes of the term a tree holds, outermost and leftmost first.
pub open spec fn pending(t: FlatTree) -> Seq<RedexMut> {
    redexes_spec(t.backing@, t.root.0 as int, ParentEdge::IntoRoot, 0, t.fuel())
}

/// The free variables and the nesting of the term leave room within `usize` for the shifts
/// that contractions make: the check a reduction step makes before it looks for a redex.
pub open spec fn depth_room(t: FlatTree) -> bool {
    exists|h: int| h >= 0 && #[trigger] heights_le(t.backing@, h) && h + 2 * t.term().abs_depth() + 2 <= usize::MAX
}

/// Contracting the first pending redex of a well-formed tree takes the leftmost-outermost step
/// of its term, wherever that step stays within `usize`.
pub proof fn lemma_reduce_step(t: FlatTree)
    requires
        t.well_formed(),
        pending(t).len() > 0,
        step_ok(t.term()),
    ensures
        step(t.term()) == Some(t.reduced(pending(t)[0])),
{
    let b = t.backing@;
    let root = t.root.0 as int;
    let ff = t.tree_fuel();
    let g = t.fuel();
    assert(is_tree(b, root, ff) && node_view(b, root, Seq::empty(), ff) is Some);
    t.lemma_term_fuel(ff);
    crate::beta_reduce::lemma_nest_view(b, root, Seq::empty(), g);
    crate::tree_facts::lemma_tree_within(b, root, ff);
    if g <= ff {
        crate::beta_reduce::lemma_redexes_fuel(b, root, ParentEdge::IntoRoot, 0, g, ff);
    } else {
        crate::beta_reduce::lemma_redexes_fuel(b, root, ParentEdge::IntoRoot, 0, ff, g);
    }
    lemma_first_contraction_is_step(b, root, ParentEdge::IntoRoot, 0, Seq::empty(), ff);
    lemma_redex_not_normal(b, root, ParentEdge::IntoRoot, 0, Seq::empty(), ff);
    crate::reference::lemma_step_none_iff_normal(t.term());
}

/// Checks that the free variables and the nesting of the term leave room for the shifts of
/// contractions; when they do, gives the term and the height of its highest free variable.
fn step_checks(tree: &FlatTree) -> (r: Option<(Debruijn, u32)>)
    requires
        tree.well_formed(),
    ensures
        tree.valid(),
        r is Some <==> depth_room(*tree),
        r matches Some((t, h)) ==> t == tree.term() && heights_le(tree.backing@, h as int) && h + 2 * t.abs_depth() + 2
            <= usize::MAX,
{
    let ghost t0 = *tree;
    proof {
        tree.lemma_term_fuel(tree.tree_fuel());
    }
    let t = unflatten(tree);
    let h = max_free_height(tree);
    let hh = h as usize;
    if hh > usize::MAX - 2 {
        proof {
            assert forall|x: int| x >= 0 && #[trigger] heights_le(t0.backing@, x) implies x + 2 * t0.term().abs_depth() + 2 > usize::MAX by {
                if h != 0 {
                    let k = choose|k: int| 0 <= k < t0.backing@.len() && (#[trigger] t0.backing@[k]) is FreeVar && t0.backing@[k]->FreeVar_0.height == h;
                    assert(t0.backing@[k] is FreeVar);
                }
            }
        }
        return None;
    }
    let limit = (usize::MAX - hh - 2) / 2;
    if !depth_at_most(&t, limit) {
        proof {
            assert forall|x: int| x >= 0 && #[trigger] heights_le(t0.backing@, x) implies x + 2 * t0.term().abs_depth() + 2 > usize::MAX by {
                if h != 0 {
                    let k = choose|k: int| 0 <= k < t0.backing@.len() && (#[trigger] t0.backing@[k]) is FreeVar && t0.backing@[k]->FreeVar_0.height == h;
                    assert(t0.backing@[k] is FreeVar);
                }
            }
        }
        return None;
    }
    proof {
        assert(heights_le(t0.backing@, h as int));
        assert(depth_room(t0));
    }
    Some((t, h))
}

/// What reducing a term came to.
pub enum ReductionResult {
    /// The term reached this normal form.
    NormalForm(Debruijn),
    /// The tree failed a check that a contraction needs.
    Irreducible,
    /// The limit of reductions was reached first.
    MaxReductionsReached,
}

/// The text of a result: the normal form after `Normal Form: `, or the name of the outcome.
pub open spec fn result_text(r: ReductionResult) -> Seq<char> {
    match r {
        ReductionResult::NormalForm(t) => "Normal Form: "@ + debruijn_text(t, PrintContext::initial()),
        ReductionResult::Irreducible => "Irreducible"@,
        ReductionResult::MaxReductionsReached => "Max Reductions Reached"@,
    }
}

impl ReductionResult {
    /// The result as text.
    pub fn to_string(&self) -> (s: String)
        ensures
            s@ == result_text(*self),
    {
        match self {
            ReductionResult::NormalForm(term) => {
                let mut s = String::from_str("Normal Form: ");
                let t = term.to_string();
                s.append(t.as_str());
                s
            },
            ReductionResult::Irreducible => String::from_str("Irreducible"),
            ReductionResult::MaxReductionsReached => String::from_str("Max Reductions Reached"),
        }
    }
}

/// A term held as a contour tree and reduced in place, one leftmost-outermost contraction at a
/// time.
pub struct Reducer {
    pub tree: FlatTree,
    pub total_gc: usize,
}

impl Reducer {
    /// A reducer that holds `term`.
    pub fn new(term: &Debruijn) -> (r: Reducer)
        requires
            term.indices_positive(),
            heights_fit(*term, 0),
            term.size() < u32::MAX,
        ensures
            r.tree.well_formed(),
            r.tree.term() == *term,
            r.tree.backing@.len() == term.size(),
            r.total_gc == 0,
    {
        Reducer { tree: flatten(term), total_gc: 0 }
    }

    /// Contracts the first redex of the term and lays the result out afresh, or reports the
    /// normal form reached, or that the checks a contraction needs failed.
    pub fn reduce_one(&mut self) -> (res: Option<ReductionResult>)
        requires
            old(self).tree.well_formed(),
        ensures
            final(self).tree.well_formed(),
            res is Some ==> *final(self) == *old(self),
            final(self).total_gc >= old(self).total_gc,
            res is None <==> depth_room(old(self).tree) && pending(old(self).tree).len() > 0 && old(self).tree.room_for(
                pending(old(self).tree)[0],
            ),
            res is None ==> final(self).tree.term() == old(self).tree.reduced(pending(old(self).tree)[0]),
            res is None ==> final(self).tree.backing@.len() == final(self).tree.term().size(),
            res is None && step_ok(old(self).tree.term()) ==> step(old(self).tree.term()) == Some(final(self).tree.term()),
            (res matches Some(ReductionResult::NormalForm(_))) <==> depth_room(old(self).tree) && pending(old(self).tree).len() == 0,
            res matches Some(ReductionResult::NormalForm(t)) ==> t == old(self).tree.term() && is_normal(t),
            !(res matches Some(ReductionResult::MaxReductionsReached)),
    {
        let ghost t0 = self.tree;
        proof {
            t0.lemma_term_fuel(t0.tree_fuel());
        }
        let (t, h) = match step_checks(&self.tree) {
            Some(x) => x,
            None => {
                return Some(ReductionResult::Irreducible);
            },
        };
        let redexes = self.tree.get_redexes();
        if redexes.len() == 0 {
            proof {
                lemma_no_redex_normal(t0.backing@, t0.root.0 as int, ParentEdge::IntoRoot, 0, Seq::empty(), t0.fuel());
            }
            return Some(ReductionResult::NormalForm(t));
        }
        let redex = redexes[0];
        proof {
            let b = t0.backing@;
            let ff = t0.tree_fuel();
            t0.lemma_term_fuel(ff);
            crate::beta_reduce::lemma_nest_view(b, t0.root.0 as int, Seq::empty(), ff);
            assert(pending(t0).contains(redex)) by {
                assert(pending(t0)[0] == redex);
            }
            crate::beta_reduce::lemma_listed_redex_held(t0, redex);
            lemma_contraction_room(t0, redex, h as int);
        }
        if !room_check(&self.tree, &redex) {
            return Some(ReductionResult::Irreducible);
        }
        proof {
            if step_ok(t0.term()) {
                lemma_reduce_step(t0);
            }
        }
        beta_reduce(&mut self.tree, &redex);
        proof {
            let t1 = self.tree;
            t1.lemma_term_fuel(t1.tree_fuel());
            crate::tree_facts::lemma_tree_view_size(t1.backing@, t1.root.0 as int, Seq::empty(), t1.tree_fuel());
        }
        self.collect_garbage();
        None
    }

    /// The redexes of the term, outermost and leftmost first, if the term leaves the room that
    /// contractions need.
    pub fn redexes(&self) -> (r: Option<Vec<RedexMut>>)
        requires
            self.tree.well_formed(),
        ensures
            r is Some <==> depth_room(self.tree),
            r matches Some(v) ==> v@ == pending(self.tree),
    {
        match step_checks(&self.tree) {
            Some(_) => Some(self.tree.get_redexes()),
            None => None,
        }
    }

    /// Contracts the redex of index `k` among the pending ones and lays the result out afresh;
    /// fails, changing nothing, when there is no such redex or the checks a contraction needs
    /// fail.
    pub fn reduce_at(&mut self, k: usize) -> (ok: bool)
        requires
            old(self).tree.well_formed(),
        ensures
            final(self).tree.well_formed(),
            ok <==> depth_room(old(self).tree) && k < pending(old(self).tree).len() && old(self).tree.room_for(
                pending(old(self).tree)[k as int],
            ),
            ok ==> final(self).tree.term() == old(self).tree.reduced(pending(old(self).tree)[k as int]),
            !ok ==> *final(self) == *old(self),
    {
        let ghost t0 = self.tree;
        proof {
            t0.lemma_term_fuel(t0.tree_fuel());
        }
        let (_t, h) = match step_checks(&self.tree) {
            Some(x) => x,
            None => {
                return false;
            },
        };
        let redexes = self.tree.get_redexes();
        if k >= redexes.len() {
            return false;
        }
        let redex = redexes[k];
        proof {
            let b = t0.backing@;
            let ff = t0.tree_fuel();
            t0.lemma_term_fuel(ff);
            crate::beta_reduce::lemma_nest_view(b, t0.root.0 as int, Seq::empty(), ff);
            assert(pending(t0).contains(redex)) by {
                assert(pending(t0)[k as int] == redex);
            }
            crate::beta_reduce::lemma_listed_redex_held(t0, redex);
            lemma_contraction_room(t0, redex, h as int);
        }
        if !room_check(&self.tree, &redex) {
            return false;
        }
        beta_reduce(&mut self.tree, &redex);
        proof {
            let t1 = self.tree;
            t1.lemma_term_fuel(t1.tree_fuel());
        }
        self.collect_garbage();
        true
    }

    /// Lays the term out afresh, without the nodes that contractions left behind, when it fits.
    fn collect_garbage(&mut self)
        requires
            old(self).tree.well_formed(),
        ensures
            final(self).tree.well_formed(),
            final(self).tree.term() == old(self).tree.term(),
            old(self).tree.term().size() < u32::MAX ==> {
                &&& final(self).tree.backing@.len() == old(self).tree.term().size()
                &&& final(self).tree.garbage_count == 0
                &&& final(self).total_gc == if old(self).total_gc < usize::MAX {
                    old(self).total_gc + 1
                } else {
                    old(self).total_gc as int
                }
            },
            old(self).tree.term().size() >= u32::MAX ==> *final(self) == *old(self),
    {
        proof {
            self.tree.lemma_term_fuel(self.tree.tree_fuel());
        }
        let t = unflatten(&self.tree);
        if size_capped(&t) < u32::MAX as u64 {
            let mut fresh = FlatTree::new();
            proof {
                assert(entrances_ok(fresh.backing@));
                assert(contours_linked(fresh.backing@));
            }
            normalize_into(&self.tree, &mut fresh);
            proof {
                let n = t.size();
                assert(is_tree(fresh.backing@, fresh.root.0 as int, n)
                    && node_view(fresh.backing@, fresh.root.0 as int, Seq::empty(), n) is Some);
            }
            self.tree = fresh;
            if self.total_gc < usize::MAX {
                self.total_gc = self.total_gc + 1;
            }
        }
    }
}

/// Reduces `term` leftmost-outermost at most `max_reductions` times; returns what it came to and
/// the number of contractions made.
pub fn reduce(term: &Debruijn, max_reductions: usize) -> (r: (ReductionResult, usize))
    requires
        term.indices_positive(),
        heights_fit(*term, 0),
        term.size() < u32::MAX,
    ensures
        r.1 <= max_reductions,
        r.0 is MaxReductionsReached <==> r.1 == max_reductions,
        r.0 matches ReductionResult::NormalForm(t) ==> is_normal(t),
        r.1 == 0 ==> (r.0 matches ReductionResult::NormalForm(t) ==> t == *term),
        r.0 matches ReductionResult::NormalForm(t) ==> ((forall|k: nat| k < r.1 ==> #[trigger] step_ok(steps(*term, k)))
            ==> t == steps(*term, r.1 as nat)),
        forall|k: nat|
            k < r.1 && (forall|m: nat| m <= k ==> #[trigger] step_ok(steps(*term, m))) ==> #[trigger] step(steps(*term, k)) is Some,
        forall|k: nat|
            #![trigger is_normal(steps(*term, k))]
            k < max_reductions && is_normal(steps(*term, k)) && (forall|j: nat| j < k ==> #[trigger] step_ok(steps(*term, j))
                && step(steps(*term, j)) is Some) && !(r.0 is Irreducible) ==> r.0 == ReductionResult::NormalForm(
                steps(*term, k),
            ) && r.1 == k,
        r.0 is Irreducible ==> r.1 < max_reductions && exists|t: FlatTree| {
            &&& t.well_formed()
            &&& t.backing@.len() == t.term().size()
            &&& (forall|k: nat| k < r.1 ==> #[trigger] step_ok(steps(*term, k))) ==> t.term() == steps(*term, r.1 as nat)
            &&& !depth_room(t) || (pending(t).len() > 0 && !t.room_for(pending(t)[0]))
        },
{
    let mut reducer = Reducer::new(term);
    let mut i: usize = 0;
    while i < max_reductions
        invariant
            i <= max_reductions,
            reducer.tree.well_formed(),
            reducer.tree.backing@.len() == reducer.tree.term().size(),
            i == 0 ==> reducer.tree.term() == *term,
            (forall|k: nat| k < i ==> #[trigger] step_ok(steps(*term, k))) ==> reducer.tree.term() == steps(*term, i as nat),
            forall|k: nat|
                k < i && (forall|m: nat| m <= k ==> #[trigger] step_ok(steps(*term, m))) ==> #[trigger] step(steps(*term, k)) is Some,
        decreases max_reductions - i,
    {
        let ghost before = reducer.tree.term();
        let ghost t0 = reducer.tree;
        if let Some(value) = reducer.reduce_one() {
            proof {
                if value is Irreducible {
                    assert(reducer.tree == t0);
                }
                assert forall|k: nat|
                    #![trigger is_normal(steps(*term, k))]
                    k < max_reductions && is_normal(steps(*term, k)) && (forall|j: nat| j < k ==> #[trigger] step_ok(steps(*term, j))
                        && step(steps(*term, j)) is Some) && !(value is Irreducible) implies value == ReductionResult::NormalForm(
                        steps(*term, k),
                    ) && i == k by {
                    crate::reference::lemma_step_none_iff_normal(steps(*term, k));
                    crate::reference::lemma_normal_step_ok(steps(*term, k));
                    assert(step_ok(steps(*term, k)));
                    if k < i {
                        assert(forall|m: nat| m <= k ==> #[trigger] step_ok(steps(*term, m)));
                    } else if k > i {
                        assert(step_ok(steps(*term, i as nat)));
                        assert(step(steps(*term, i as nat)) is Some);
                        assert(forall|m: nat| m < i ==> #[trigger] step_ok(steps(*term, m)));
                        crate::reference::lemma_step_none_iff_normal(steps(*term, i as nat));
                    } else {
                        assert(forall|m: nat| m < i ==> #[trigger] step_ok(steps(*term, m)));
                    }
                }
            }
            return (value, i);
        }
        proof {
            if forall|k: nat| k < i + 1 ==> #[trigger] step_ok(steps(*term, k)) {
                assert(step_ok(steps(*term, i as nat)));
                assert(before == steps(*term, i as nat));
                assert(steps(*term, (i + 1) as nat) == reducer.tree.term());
            }
            assert forall|k: nat|
                k < i + 1 && (forall|m: nat| m <= k ==> #[trigger] step_ok(steps(*term, m))) implies #[trigger] step(
                steps(*term, k),
            ) is Some by {
                if k == i {
                    assert(forall|m: nat| m < i ==> #[trigger] step_ok(steps(*term, m)));
                    assert(before == steps(*term, i as nat));
                }
            }
        }
        i = i + 1;
    }
    proof {
        assert forall|k: nat|
            #![trigger is_normal(steps(*term, k))]
            k < max_reductions && is_normal(steps(*term, k)) && (forall|j: nat| j < k ==> #[trigger] step_ok(steps(*term, j))
                && step(steps(*term, j)) is Some) && !(ReductionResult::MaxReductionsReached is Irreducible) implies false by {
            crate::reference::lemma_step_none_iff_normal(steps(*term, k));
            crate::reference::lemma_normal_step_ok(steps(*term, k));
            assert(forall|m: nat| m <= k ==> #[trigger] step_ok(steps(*term, m)));
        }
    }
    (ReductionResult::MaxReductionsReached, max_reductions)
}

/// `reduce` and the reference reducer agree: the normal form that `reduce` returns, reached
/// after `k` steps, is the term the reference reducer holds after any `limit >= k` steps.
pub proof fn lemma_agrees_with_reference(term: Debruijn, k: nat, limit: nat)
    requires
        k <= limit,
        is_normal(steps(term, k)),
    ensures
        steps(term, limit) == steps(term, k),
{
    crate::reference::lemma_step_none_iff_normal(steps(term, k));
    crate::reference::lemma_steps_stay_normal(term, k, limit);
}

/// The strategies the command line offers; `reduce` itself always contracts leftmost-outermost.
pub enum ReductionStrategy {
    DFS,
    BFS,
    Random(Rng),
}

impl ReductionStrategy {
    /// Random order, seeded from the clock.
    pub fn random() -> (r: ReductionStrategy)
        ensures
            r is Random,
    {
        ReductionStrategy::Random(Rng::new())
    }

    /// The strategy of a kind; a random one is seeded from the clock.
    pub fn from_kind(kind: ReductionStrategyKind) -> (r: ReductionStrategy)
        ensures
            kind is DFS <==> r is DFS,
            kind is BFS <==> r is BFS,
            kind is Random <==> r is Random,
    {
        match kind {
            ReductionStrategyKind::DFS => ReductionStrategy::DFS,
            ReductionStrategyKind::BFS => ReductionStrategy::BFS,
            ReductionStrategyKind::Random => ReductionStrategy::random(),
        }
    }
}

/// The kinds of strategy, without the state of a random one.
#[derive(Debug, Clone, Copy, PartialEq, Eq, Structural)]
pub enum ReductionStrategyKind {
    DFS,
    BFS,
    Random,
}

/// The number of nodes of `t`, or `u32::MAX + 1` if it has more than `u32::MAX`.
fn size_capped(t: &Debruijn) -> (r: u64)
    ensures
        r == if t.size() <= u32::MAX { t.size() as int } else { u32::MAX + 1 },
    decreases t,
{
    let cap: u64 = u32::MAX as u64 + 1;
    match t {
        Debruijn::Index(_) => 1,
        Debruijn::Application { func, arg } => {
            let n = size_capped(func) + size_capped(arg) + 1;
            if n < cap { n } else { cap }
        },
        Debruijn::Abstraction { body } => {
            let n = size_capped(body) + 1;
            if n < cap { n } else { cap }
        },
    }
}

/// Whether every index of `t` is at least 1 and every free variable, under `depth` enclosing
/// abstractions, has a height that fits in 32 bits.
fn indices_fit(t: &Debruijn, depth: usize) -> (r: bool)
    requires
        depth + t.size() <= usize::MAX,
    ensures
        r == (t.indices_positive() && heights_fit(*t, depth as nat)),
    decreases t,
{
    match t {
        Debruijn::Index(i) => *i >= 1 && (*i <= depth || *i - depth <= u32::MAX as usize),
        Debruijn::Application { func, arg } => indices_fit(func, depth) && indices_fit(arg, depth),
        Debruijn::Abstraction { body } => indices_fit(body, depth + 1),
    }
}

/// Whether `term` can be laid out as a contour tree, as `Reducer::new` and `reduce` need.
pub fn layout_fits(term: &Debruijn) -> (r: bool)
    ensures
        r == (term.indices_positive() && heights_fit(*term, 0) && term.size() < u32::MAX),
{
    if size_capped(term) >= u32::MAX as u64 {
        return false;
    }
    indices_fit(term, 0)
}

} // verus!
