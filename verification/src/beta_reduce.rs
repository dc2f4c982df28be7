//! Beta reduction on a `FlatTree` whose bound variables are kept in contours: finding redexes,
//! and contracting one in place.
use vstd::prelude::*;

use crate::debruijn::Debruijn;

use crate::contour_edit::{
    contours_linked, entrances_ok,
    clone_ready, clone_target, cloned, inserted, lemma_abs_done, lemma_app_done, lemma_appended_trans,
    lemma_free_done, lemma_ready_body, lemma_ready_child, lemma_set_children_append, lemma_target_ok,
    lemma_var_done,
};
use crate::debruijn_flat::{contraction_fits, subst_down, subst_fits};
use crate::redex_facts::{
    lemma_locate_abs, lemma_locate_facts, lemma_outer, lemma_redex_located, lemma_subst_none, locate, reduced_view,
};
use crate::tree_facts::{chain_avoids, chain_in, lemma_tree_fuel, lemma_tree_within, reach_size};
use crate::contraction_facts::{
    beta_ready, lemma_before_repoint, lemma_beta_ready, lemma_done_inner, lemma_done_root, substituted,
};
use crate::subst_facts::{
    all_abs, bound_count, lemma_count_zero, lemma_empty_contour,
    edge_child, has_last, lemma_abs_post, lemma_abs_pre, lemma_app_mid, lemma_app_post, lemma_app_pre, lemma_subst_prep,
    lemma_var_copy, lemma_var_keep, lemma_var_reuse, set_edge, subst_node, subst_result,
};
use crate::flat_tree::{
    binder, entrance_ok, is_tree, lemma_view_fuel, node_view, reach, within, Application,
    first_pos, lemma_first_pos, lemma_reach_basics, node_ref_spec, old_abs_of, shape, AbsIndex, AppIndex,
    BackingIndex, BoundVarIndex, FlatTree, Node, NodeRef, ParentEdge,
};

verus! {

/// An application of an abstraction, found in a `FlatTree`.
#[derive(Debug, Clone, Copy, PartialEq, Eq, Structural)]
pub struct RedexMut {
    /// The number of abstractions above the application.
    pub debruijn_depth: usize,
    /// The edge that leads to the application.
    pub parent_to_app: ParentEdge,
    /// The application.
    pub app_index: BackingIndex,
    /// The abstraction applied.
    pub func_index: AbsIndex,
    /// The body of the abstraction.
    pub body_index: BackingIndex,
    /// The argument.
    pub arg_index: BackingIndex,
}

/// How often the variable of an abstraction occurs, as far as its contour tells.
#[derive(Debug, Clone, Copy, PartialEq, Eq, Structural)]
enum BodyUsage {
    Zero,
    One,
    Many,
}

/// Whether the node at `i` is an application of an abstraction.
pub open spec fn redex_at(b: Seq<Node>, i: int) -> bool {
    &&& 0 <= i < b.len()
    &&& b[i] matches Node::App(app)
    &&& app.func.0 < b.len()
    &&& b[app.func.0 as int] is Abs
}

/// The redex at `app_index` as `try_get` finds it, if the node is one.
pub open spec fn redex_spec(b: Seq<Node>, debruijn_depth: usize, parent_to_app: ParentEdge, app_index: BackingIndex) -> Option<
    RedexMut,
> {
    if redex_at(b, app_index.0 as int) {
        let app = b[app_index.0 as int]->App_0;
        let abs = b[app.func.0 as int]->Abs_0;
        Some(
            RedexMut {
                debruijn_depth,
                parent_to_app,
                app_index,
                func_index: AbsIndex(app.func),
                body_index: abs.body,
                arg_index: app.arg,
            },
        )
    } else {
        None
    }
}

impl RedexMut {
    /// Zero when the contour of the abstraction is empty, one when it holds a single variable,
    /// many otherwise.
    fn body_usage(&self, tree: &FlatTree) -> (r: BodyUsage)
        requires
            self.func_index.0.0 < tree.backing@.len(),
            tree.backing@[self.func_index.0.0 as int] matches Node::Abs(abs) && (abs.entrance matches Some(e) ==> e.0.0
                < tree.backing@.len() && tree.backing@[e.0.0 as int] is BoundVar),
        ensures
            r == match tree.backing@[self.func_index.0.0 as int]->Abs_0.entrance {
                None => BodyUsage::Zero,
                Some(e) => if tree.backing@[e.0.0 as int]->BoundVar_0.next is None {
                    BodyUsage::One
                } else {
                    BodyUsage::Many
                },
            },
    {
        let abs = tree.get_abs(self.func_index);
        match abs.entrance {
            Some(entrance) => {
                let var = tree.get_bound_var(entrance);
                match var.next {
                    Some(_) => BodyUsage::Many,
                    None => BodyUsage::One,
                }
            },
            None => BodyUsage::Zero,
        }
    }

    /// Whether the node at `term` is an application of an abstraction.
    pub fn is_redex(tree: &FlatTree, term: BackingIndex) -> (r: bool)
        requires
            term.0 < tree.backing@.len(),
            tree.backing@[term.0 as int] matches Node::App(app) ==> app.func.0 < tree.backing@.len(),
        ensures
            r == redex_at(tree.backing@, term.0 as int),
    {
        if let Node::App(app) = tree.get(term) {
            if let Node::Abs(_) = tree.get(app.func) {
                true
            } else {
                false
            }
        } else {
            false
        }
    }

    /// The redex at `app_index`, reached by `parent_to_app` under `debruijn_depth`
    /// abstractions, or `None` when the node is not an application of an abstraction.
    pub fn try_get(tree: &FlatTree, debruijn_depth: usize, parent_to_app: ParentEdge, app_index: BackingIndex) -> (r: Option<
        RedexMut,
    >)
        requires
            app_index.0 < tree.backing@.len(),
            tree.backing@[app_index.0 as int] matches Node::App(app) ==> app.func.0 < tree.backing@.len(),
        ensures
            r == redex_spec(tree.backing@, debruijn_depth, parent_to_app, app_index),
    {
        if let NodeRef::App(app, _) = tree.get_ref(app_index) {
            if let NodeRef::Abs(abs, func_index) = tree.get_ref(app.func) {
                let redex = RedexMut {
                    debruijn_depth,
                    parent_to_app,
                    app_index,
                    func_index,
                    body_index: abs.body,
                    arg_index: app.arg,
                };
                return Some(redex);
            }
        }
        None
    }
}

/// The redexes reached from `i`, in preorder with functions before arguments; `edge` leads to
/// `i` and `depth` abstractions lie above it.
pub open spec fn redexes_spec(b: Seq<Node>, i: int, edge: ParentEdge, depth: nat, fuel: nat) -> Seq<RedexMut>
    decreases fuel,
{
    if fuel == 0 || i < 0 || i >= b.len() {
        Seq::empty()
    } else {
        match b[i] {
            Node::Abs(abs) => redexes_spec(
                b,
                abs.body.0 as int,
                ParentEdge::AbsToBody(AbsIndex(BackingIndex(i as u32))),
                depth + 1,
                (fuel - 1) as nat,
            ),
            Node::App(app) => {
                let here = match redex_spec(b, depth as usize, edge, BackingIndex(i as u32)) {
                    Some(r) => seq![r],
                    None => Seq::empty(),
                };
                here + redexes_spec(b, app.func.0 as int, ParentEdge::AppToFunc(AppIndex(BackingIndex(i as u32))), depth, (fuel - 1) as nat)
                    + redexes_spec(b, app.arg.0 as int, ParentEdge::AppToArg(AppIndex(BackingIndex(i as u32))), depth, (fuel - 1) as nat)
            },
            _ => Seq::empty(),
        }
    }
}

/// Some redex of `s` is at position `k`.
pub open spec fn lists_app(s: Seq<RedexMut>, k: int) -> bool {
    exists|j: int| 0 <= j < s.len() && (#[trigger] s[j]).app_index.0 == k
}

/// In a tree, the redexes listed from `i` are exactly its nodes that are applications of an
/// abstraction.
pub proof fn lemma_redexes_listed(b: Seq<Node>, i: int, edge: ParentEdge, depth: nat, fuel: nat)
    requires
        is_tree(b, i, fuel),
        b.len() <= u32::MAX,
    ensures
        forall|j: int|
            0 <= j < redexes_spec(b, i, edge, depth, fuel).len() ==> reach(b, i, fuel).contains(
                (#[trigger] redexes_spec(b, i, edge, depth, fuel)[j]).app_index.0 as int,
            ) && redex_at(b, redexes_spec(b, i, edge, depth, fuel)[j].app_index.0 as int),
        forall|k: int| #[trigger] reach(b, i, fuel).contains(k) ==> (redex_at(b, k) <==> lists_app(redexes_spec(b, i, edge, depth, fuel), k)),
    decreases fuel,
{
    lemma_reach_basics(b, i, fuel);
    let s = redexes_spec(b, i, edge, depth, fuel);
    match b[i] {
        Node::Abs(abs) => {
            let bi = abs.body.0 as int;
            let e2 = ParentEdge::AbsToBody(AbsIndex(BackingIndex(i as u32)));
            lemma_redexes_listed(b, bi, e2, depth + 1, (fuel - 1) as nat);
            assert(s == redexes_spec(b, bi, e2, depth + 1, (fuel - 1) as nat));
            assert forall|k: int| #[trigger] reach(b, i, fuel).contains(k) implies (redex_at(b, k) <==> lists_app(s, k)) by {
                if k == i {
                    if lists_app(s, k) {
                        let j = choose|j: int| 0 <= j < s.len() && (#[trigger] s[j]).app_index.0 == k;
                        assert(reach(b, bi, (fuel - 1) as nat).contains(s[j].app_index.0 as int));
                    }
                } else {
                    assert(reach(b, bi, (fuel - 1) as nat).contains(k));
                }
            }
        },
        Node::App(app) => {
            let f1 = (fuel - 1) as nat;
            let fi = app.func.0 as int;
            let ai = app.arg.0 as int;
            let ef = ParentEdge::AppToFunc(AppIndex(BackingIndex(i as u32)));
            let ea = ParentEdge::AppToArg(AppIndex(BackingIndex(i as u32)));
            lemma_redexes_listed(b, fi, ef, depth, f1);
            lemma_redexes_listed(b, ai, ea, depth, f1);
            let here = match redex_spec(b, depth as usize, edge, BackingIndex(i as u32)) {
                Some(r) => seq![r],
                None => Seq::empty(),
            };
            let sf = redexes_spec(b, fi, ef, depth, f1);
            let sa = redexes_spec(b, ai, ea, depth, f1);
            assert(s == here + sf + sa);
            assert forall|j: int| 0 <= j < s.len() implies reach(b, i, fuel).contains((#[trigger] s[j]).app_index.0 as int)
                && redex_at(b, s[j].app_index.0 as int) by {
                if j < here.len() {
                } else if j < here.len() + sf.len() {
                    assert(s[j] == sf[j - here.len()]);
                } else {
                    assert(s[j] == sa[j - here.len() - sf.len()]);
                }
            }
            assert forall|k: int| #[trigger] reach(b, i, fuel).contains(k) implies (redex_at(b, k) <==> lists_app(s, k)) by {
                if k == i {
                    if redex_at(b, k) {
                        assert(s[0].app_index.0 == k);
                    }
                    if lists_app(s, k) {
                        let j = choose|j: int| 0 <= j < s.len() && (#[trigger] s[j]).app_index.0 == k;
                        if j >= here.len() && j < here.len() + sf.len() {
                            assert(s[j] == sf[j - here.len()]);
                            assert(reach(b, fi, f1).contains(k));
                        } else if j >= here.len() + sf.len() {
                            assert(s[j] == sa[j - here.len() - sf.len()]);
                            assert(reach(b, ai, f1).contains(k));
                        }
                    }
                } else if reach(b, fi, f1).contains(k) {
                    assert(!reach(b, ai, f1).contains(k));
                    if redex_at(b, k) {
                        let j = choose|j: int| 0 <= j < sf.len() && (#[trigger] sf[j]).app_index.0 == k;
                        assert(s[j + here.len()] == sf[j]);
                    }
                    if lists_app(s, k) {
                        let j = choose|j: int| 0 <= j < s.len() && (#[trigger] s[j]).app_index.0 == k;
                        if j < here.len() {
                        } else if j < here.len() + sf.len() {
                            assert(s[j] == sf[j - here.len()]);
                        } else {
                            assert(s[j] == sa[j - here.len() - sf.len()]);
                        }
                    }
                } else {
                    assert(reach(b, ai, f1).contains(k));
                    if redex_at(b, k) {
                        let j = choose|j: int| 0 <= j < sa.len() && (#[trigger] sa[j]).app_index.0 == k;
                        assert(s[j + here.len() + sf.len()] == sa[j]);
                    }
                    if lists_app(s, k) {
                        let j = choose|j: int| 0 <= j < s.len() && (#[trigger] s[j]).app_index.0 == k;
                        if j < here.len() {
                        } else if j < here.len() + sf.len() {
                            assert(s[j] == sf[j - here.len()]);
                            assert(reach(b, fi, f1).contains(k));
                        } else {
                            assert(s[j] == sa[j - here.len() - sf.len()]);
                        }
                    }
                }
            }
        },
        _ => {},
    }
}

/// The largest number of abstractions nested along a path from `i` within `fuel` steps.
pub open spec fn nest(b: Seq<Node>, i: int, fuel: nat) -> nat
    decreases fuel,
{
    if fuel == 0 || i < 0 || i >= b.len() {
        0
    } else {
        match b[i] {
            Node::Abs(abs) => 1 + nest(b, abs.body.0 as int, (fuel - 1) as nat),
            Node::App(app) => {
                let f = nest(b, app.func.0 as int, (fuel - 1) as nat);
                let a = nest(b, app.arg.0 as int, (fuel - 1) as nat);
                if f >= a {
                    f
                } else {
                    a
                }
            },
            _ => 0,
        }
    }
}

fn get_redexes_at(
    tree: &FlatTree,
    index: BackingIndex,
    parent_to_current: ParentEdge,
    debruijn_depth: usize,
    redexes: &mut Vec<RedexMut>,
    Ghost(fuel): Ghost<nat>,
)
    requires
        crate::flat_tree::within(tree.backing@, index.0 as int, 0, tree.backing@.len() as int, fuel),
        debruijn_depth + nest(tree.backing@, index.0 as int, fuel) <= usize::MAX,
    ensures
        final(redexes)@ == old(redexes)@ + redexes_spec(tree.backing@, index.0 as int, parent_to_current, debruijn_depth as nat, fuel),
    decreases fuel,
{
    let ghost b = tree.backing@;
    let ghost r0 = redexes@;
    match tree.get_ref(index) {
        NodeRef::FreeVar(_, _) => {
            proof {
                assert(r0 + Seq::<RedexMut>::empty() =~= r0);
            }
        },
        NodeRef::BoundVar(_, _) => {
            proof {
                assert(r0 + Seq::<RedexMut>::empty() =~= r0);
            }
        },
        NodeRef::Abs(abstraction, abs_index) => {
            get_redexes_at(tree, abstraction.body, ParentEdge::AbsToBody(abs_index), debruijn_depth + 1, redexes, Ghost((fuel - 1) as nat));
        },
        NodeRef::App(application, _) => {
            proof {
                assert(crate::flat_tree::within(b, application.func.0 as int, 0, b.len() as int, (fuel - 1) as nat));
            }
            if let Some(redex) = RedexMut::try_get(tree, debruijn_depth, parent_to_current, index) {
                redexes.push(redex);
            }
            let ghost r1 = redexes@;
            get_redexes_at(tree, application.func, ParentEdge::AppToFunc(AppIndex(index)), debruijn_depth, redexes, Ghost((fuel - 1) as nat));
            let ghost r2 = redexes@;
            get_redexes_at(tree, application.arg, ParentEdge::AppToArg(AppIndex(index)), debruijn_depth, redexes, Ghost((fuel - 1) as nat));
            proof {
                let here = match redex_spec(b, debruijn_depth, parent_to_current, index) {
                    Some(r) => seq![r],
                    None => Seq::<RedexMut>::empty(),
                };
                assert(r1 =~= r0 + here);
                assert(redexes@ =~= r0 + redexes_spec(b, index.0 as int, parent_to_current, debruijn_depth as nat, fuel));
            }
        },
    }
}

/// The abstractions nested in a tree with a view are as many as its term's.
pub proof fn lemma_nest_view(b: Seq<Node>, i: int, chain: Seq<AbsIndex>, fuel: nat)
    requires
        crate::flat_tree::node_view(b, i, chain, fuel) is Some,
    ensures
        crate::flat_tree::within(b, i, 0, b.len() as int, fuel),
        nest(b, i, fuel) == crate::flat_tree::node_view(b, i, chain, fuel)->0.abs_depth(),
    decreases fuel,
{
    match b[i] {
        Node::Abs(abs) => {
            lemma_nest_view(b, abs.body.0 as int, chain.push(AbsIndex(BackingIndex(i as u32))), (fuel - 1) as nat);
        },
        Node::App(app) => {
            lemma_nest_view(b, app.func.0 as int, chain, (fuel - 1) as nat);
            lemma_nest_view(b, app.arg.0 as int, chain, (fuel - 1) as nat);
        },
        _ => {},
    }
}

impl FlatTree {
    /// Every redex of the term, in preorder with functions before arguments.
    pub fn get_redexes(&self) -> (r: Vec<RedexMut>)
        requires
            self.valid(),
            self.term().abs_depth() <= usize::MAX,
        ensures
            r@ == redexes_spec(self.backing@, self.root.0 as int, ParentEdge::IntoRoot, 0, self.fuel()),
    {
        proof {
            lemma_nest_view(self.backing@, self.root.0 as int, Seq::empty(), self.fuel());
        }
        let mut redexes: Vec<RedexMut> = Vec::new();
        get_redexes_at(self, self.root, ParentEdge::IntoRoot, 0, &mut redexes, Ghost(self.fuel()));
        proof {
            assert(redexes@ =~= redexes_spec(self.backing@, self.root.0 as int, ParentEdge::IntoRoot, 0, self.fuel()));
        }
        redexes
    }

    /// Whether the term is in beta normal form: no application of an abstraction occurs in it.
    pub fn is_bnf(&self) -> (r: bool)
        requires
            self.valid(),
        ensures
            r == crate::reference::is_normal(self.term()),
    {
        proof {
            lemma_nest_view(self.backing@, self.root.0 as int, Seq::empty(), self.fuel());
        }
        is_bnf_at(self, self.root, Ghost(Seq::empty()), Ghost(self.fuel()))
    }
}

fn is_bnf_at(tree: &FlatTree, index: BackingIndex, Ghost(chain): Ghost<Seq<AbsIndex>>, Ghost(fuel): Ghost<nat>) -> (r: bool)
    requires
        node_view(tree.backing@, index.0 as int, chain, fuel) is Some,
    ensures
        r == crate::reference::is_normal(node_view(tree.backing@, index.0 as int, chain, fuel)->0),
    decreases fuel,
{
    match tree.get_ref(index) {
        NodeRef::FreeVar(_, _) => true,
        NodeRef::BoundVar(_, _) => true,
        NodeRef::Abs(abstraction, _) => is_bnf_at(
            tree,
            abstraction.body,
            Ghost(chain.push(AbsIndex(BackingIndex(index.0 as u32)))),
            Ghost((fuel - 1) as nat),
        ),
        NodeRef::App(application, _) => {
            let ghost b = tree.backing@;
            proof {
                let fi = application.func.0 as int;
                assert(node_view(b, fi, chain, (fuel - 1) as nat) is Some);
                assert(0 <= fi < b.len());
                assert((node_view(b, fi, chain, (fuel - 1) as nat)->0 is Abstraction) == (b[fi] is Abs));
            }
            !RedexMut::is_redex(tree, index) && is_bnf_at(tree, application.func, Ghost(chain), Ghost((fuel - 1) as nat))
                && is_bnf_at(tree, application.arg, Ghost(chain), Ghost((fuel - 1) as nat))
        },
    }
}

/// Puts the variable `var_index` at the front of the contour of `abs_index`.
fn insert_into_contour(tree: &mut FlatTree, abs_index: AbsIndex, var_index: BoundVarIndex)
    requires
        abs_index.0.0 < old(tree).backing@.len(),
        old(tree).backing@[abs_index.0.0 as int] is Abs,
        var_index.0.0 < old(tree).backing@.len(),
        old(tree).backing@[var_index.0.0 as int] is BoundVar,
        old(tree).backing@[abs_index.0.0 as int]->Abs_0.entrance matches Some(e) ==> e.0.0 < old(tree).backing@.len()
            && old(tree).backing@[e.0.0 as int] is BoundVar,
    ensures
        final(tree).backing@ == inserted(old(tree).backing@, abs_index, var_index),
        final(tree).root == old(tree).root,
        final(tree).garbage_count == old(tree).garbage_count,
{
    let abs = tree.get_abs_mut(abs_index);
    match abs.entrance {
        Some(entrance) => {
            abs.entrance = Some(var_index);
            let entrance_var = tree.get_bound_var_mut(entrance);
            entrance_var.prev = var_index.0;
            let var = tree.get_bound_var_mut(var_index);
            var.next = Some(entrance);
            var.prev = abs_index.0;
        },
        None => {
            abs.entrance = Some(var_index);
            let var = tree.get_bound_var_mut(var_index);
            var.next = None;
            var.prev = abs_index.0;
        },
    }
}

/// The abstractions met while a subtree is copied, paired with their copies, innermost last.
struct CloneContext {
    old_to_new: Vec<(AbsIndex, AbsIndex)>,
}

impl CloneContext {
    fn new() -> (c: CloneContext)
        ensures
            c.old_to_new@ == Seq::<(AbsIndex, AbsIndex)>::empty(),
    {
        CloneContext { old_to_new: Vec::new() }
    }

    fn push(&mut self, old_abs: AbsIndex, new_abs: AbsIndex)
        ensures
            final(self).old_to_new@ == old(self).old_to_new@.push((old_abs, new_abs)),
    {
        self.old_to_new.push((old_abs, new_abs));
    }

    fn pop(&mut self)
        requires
            old(self).old_to_new@.len() > 0,
        ensures
            final(self).old_to_new@ == old(self).old_to_new@.drop_last(),
    {
        self.old_to_new.pop();
    }

    /// The copy paired with the first occurrence of `old_abs`, if it was met.
    fn get_new_abs(&self, old_abs: AbsIndex) -> (r: Option<AbsIndex>)
        ensures
            r == if first_pos(old_abs_of(self.old_to_new@), old_abs) >= 0 {
                Some(self.old_to_new@[first_pos(old_abs_of(self.old_to_new@), old_abs)].1)
            } else {
                None
            },
    {
        let ghost olds = old_abs_of(self.old_to_new@);
        let mut i: usize = 0;
        while i < self.old_to_new.len()
            invariant
                olds == old_abs_of(self.old_to_new@),
                i <= self.old_to_new@.len(),
                forall|j: int| 0 <= j < i ==> olds[j] != old_abs,
            decreases self.old_to_new@.len() - i,
        {
            let pair = self.old_to_new[i];
            proof {
                assert(olds[i as int] == self.old_to_new@[i as int].0);
            }
            if pair.0 == old_abs {
                proof {
                    lemma_first_pos(olds, old_abs, i as int);
                }
                return Some(pair.1);
            }
            i = i + 1;
        }
        proof {
            lemma_first_pos(olds, old_abs, i as int);
        }
        None
    }
}

/// Appends a copy of the subtree at `old_node_index`, reached by `parent`: a variable bound
/// inside the subtree joins the contour of the copy of its abstraction, any other the contour
/// of its own. Each application is appended before its children.
#[verifier::rlimit(30)]
fn clone_at(
    tree: &mut FlatTree,
    ctx: &mut CloneContext,
    old_node_index: BackingIndex,
    parent: ParentEdge,
    Ghost(fuel): Ghost<nat>,
    Ghost(k): Ghost<Seq<AbsIndex>>,
    Ghost(lo0): Ghost<int>,
) -> (r: BackingIndex)
    requires
        clone_ready(old(tree).backing@, old(ctx).old_to_new@, old_node_index.0 as int, fuel, k, lo0),
    ensures
        final(ctx).old_to_new@ == old(ctx).old_to_new@,
        final(tree).root == old(tree).root,
        final(tree).garbage_count == old(tree).garbage_count,
        cloned(old(tree).backing@, final(tree).backing@, old(ctx).old_to_new@, old_node_index.0 as int, fuel, k, r.0 as int),
    decreases fuel,
{
    let ghost b0 = tree.backing@;
    let ghost c0 = ctx.old_to_new@;
    let ghost i = old_node_index.0 as int;
    let ghost lo = b0.len() as int;
    proof {
        lemma_reach_basics(b0, i, fuel);
    }
    match tree.get_ref(old_node_index) {
        NodeRef::FreeVar(free_var, _) => {
            let node = Node::FreeVar(*free_var);
            let r = tree.alloc_node(node);
            proof {
                lemma_free_done(b0, tree.backing@, c0, i, fuel, k, lo0);
            }
            r
        },
        NodeRef::BoundVar(variable, _) => {
            proof {
                lemma_target_ok(b0, c0, i, fuel, k, lo0);
            }
            let old_abs = tree.get_binding_abs(variable);
            let new_var = tree.alloc_blank_var(parent);
            let ghost b1 = tree.backing@;
            proof {
                let t = clone_target(c0, old_abs).0.0 as int;
                assert(b1[t] == b0[t]);
                if let Some(e) = b0[t]->Abs_0.entrance {
                    assert(b1[e.0.0 as int] == b0[e.0.0 as int]);
                }
            }
            if let Some(new_abs) = ctx.get_new_abs(old_abs) {
                insert_into_contour(tree, new_abs, new_var);
            } else {
                insert_into_contour(tree, old_abs, new_var);
            }
            proof {
                lemma_var_done(b0, b1, tree.backing@, c0, i, fuel, k, lo0, b1[lo]->BoundVar_0);
            }
            new_var.0
        },
        NodeRef::Abs(abstraction, old_abs) => {
            let old_body_index = abstraction.body;
            let new_abs_index = tree.alloc_blank_abs();
            let ghost b1 = tree.backing@;
            proof {
                lemma_ready_body(b0, b1, c0, i, fuel, k, lo0);
                assert(old_abs == AbsIndex(BackingIndex(i as u32)));
            }
            ctx.push(old_abs, new_abs_index);
            let new_body = clone_at(tree, ctx, old_body_index, ParentEdge::AbsToBody(new_abs_index), Ghost((fuel - 1) as nat), Ghost(k), Ghost(lo0));
            let ghost b2 = tree.backing@;
            ctx.pop();
            proof {
                assert(ctx.old_to_new@ =~= c0);
                assert(shape(b2[lo]) == shape(b1[lo]));
            }
            let new_abs = tree.get_abs_mut(new_abs_index);
            new_abs.body = new_body;
            proof {
                lemma_abs_done(b0, b1, b2, tree.backing@, c0, i, fuel, k, lo0, new_body.0 as int);
            }
            new_abs_index.0
        },
        NodeRef::App(application, _) => {
            let old_func_index = application.func;
            let old_arg_index = application.arg;
            let new_app_index = tree.alloc_blank_app();
            let ghost b1 = tree.backing@;
            let ghost f1 = (fuel - 1) as nat;
            proof {
                lemma_set_children_append(b0, b1);
                lemma_reach_basics(b0, old_func_index.0 as int, f1);
                lemma_reach_basics(b0, old_arg_index.0 as int, f1);
                lemma_ready_child(b0, b1, c0, i, old_func_index.0 as int, fuel, k, lo0);
            }
            let new_func = clone_at(tree, ctx, old_func_index, ParentEdge::AppToFunc(new_app_index), Ghost(f1), Ghost(k), Ghost(lo0));
            let ghost b2 = tree.backing@;
            proof {
                lemma_appended_trans(b0, b1, b2);
                lemma_ready_child(b0, b2, c0, i, old_arg_index.0 as int, fuel, k, lo0);
            }
            let new_arg = clone_at(tree, ctx, old_arg_index, ParentEdge::AppToArg(new_app_index), Ghost(f1), Ghost(k), Ghost(lo0));
            let ghost b3 = tree.backing@;
            proof {
                assert(shape(b3[lo]) == shape(b2[lo]));
                assert(shape(b2[lo]) == shape(b1[lo]));
            }
            let new_app = tree.get_app_mut(new_app_index);
            new_app.func = new_func;
            new_app.arg = new_arg;
            proof {
                lemma_app_done(b0, b1, b2, b3, tree.backing@, c0, i, fuel, k, lo0, new_func.0 as int, new_arg.0 as int);
            }
            new_app_index.0
        },
    }
}

/// Appends a copy of the subtree at `index`, reached by `parent`, and returns the position of
/// its root; its view under the abstractions `k` above it is the original's.
fn clone_subtree(tree: &mut FlatTree, index: BackingIndex, parent: ParentEdge, Ghost(fuel): Ghost<nat>, Ghost(k): Ghost<Seq<AbsIndex>>) -> (r: BackingIndex)
    requires
        clone_ready(old(tree).backing@, Seq::empty(), index.0 as int, fuel, k, old(tree).backing@.len() as int),
    ensures
        final(tree).root == old(tree).root,
        final(tree).garbage_count == old(tree).garbage_count,
        cloned(old(tree).backing@, final(tree).backing@, Seq::empty(), index.0 as int, fuel, k, r.0 as int),
{
    let mut ctx = CloneContext::new();
    clone_at(tree, &mut ctx, index, parent, Ghost(fuel), Ghost(k), Ghost(tree.backing@.len() as int))
}


/// Makes the edge `parent` lead to `child`; the node it led to before is left in place.
fn repoint_node(tree: &mut FlatTree, parent: ParentEdge, child: BackingIndex)
    requires
        edge_child(old(tree).backing@, old(tree).root, parent) is Some,
        parent.parent_spec() != Some(child),
    ensures
        final(tree).backing@ == set_edge(old(tree).backing@, parent, child),
        final(tree).root == if parent is IntoRoot {
            child
        } else {
            old(tree).root
        },
        final(tree).garbage_count == old(tree).garbage_count,
{
    match parent {
        ParentEdge::AbsToBody(parent) => {
            let abs = tree.get_abs_mut(parent);
            abs.body = child;
        },
        ParentEdge::AppToFunc(parent) => {
            let app = tree.get_app_mut(parent);
            app.func = child;
        },
        ParentEdge::AppToArg(parent) => {
            let app = tree.get_app_mut(parent);
            app.arg = child;
        },
        ParentEdge::IntoRoot => tree.root = child,
    }
}

/// Replaces, in the subtree at `node_index` (reached by `parent_to_node`) of the body of a
/// redex, every variable bound to `func_index` by the argument at `arg_index`: the last variable
/// of the contour by the argument itself, the others by copies of it.
fn substitute_at(
    tree: &mut FlatTree,
    func_index: AbsIndex,
    arg_index: BackingIndex,
    node_index: BackingIndex,
    parent_to_node: ParentEdge,
    Ghost(fuel): Ghost<nat>,
    Ghost(c): Ghost<Seq<AbsIndex>>,
    Ghost(d): Ghost<Seq<AbsIndex>>,
    Ghost(fa): Ghost<nat>,
    Ghost(ta): Ghost<Debruijn>,
    Ghost(lo0): Ghost<int>,
    Ghost(reused): Ghost<bool>,
)
    requires
        subst_node(old(tree).backing@, old(tree).root, func_index, arg_index.0 as int, node_index.0 as int, parent_to_node, fuel, c, d, fa, ta, lo0, reused),
    ensures
        final(tree).root == old(tree).root,
        final(tree).garbage_count == old(tree).garbage_count,
        subst_result(old(tree).backing@, final(tree).backing@, old(tree).root, func_index, arg_index.0 as int, node_index.0 as int, parent_to_node, fuel, c, d, fa, ta),
    decreases fuel,
{
    let ghost b0 = tree.backing@;
    let ghost root = tree.root;
    let ghost i = node_index.0 as int;
    let ghost a = arg_index.0 as int;
    proof {
        lemma_reach_basics(b0, i, fuel);
        lemma_reach_basics(b0, a, fa);
    }
    match tree.get_ref(node_index) {
        NodeRef::FreeVar(_, _) => {
            proof {
                lemma_var_keep(b0, root, func_index, a, i, parent_to_node, fuel, c, d, fa, ta, lo0, reused);
            }
        },
        NodeRef::BoundVar(bound_var, _) => {
            let is_substituting = tree.get_binding_abs(bound_var) == func_index;
            if is_substituting {
                let last_arg_allocation = bound_var.next.is_none();
                proof {
                    lemma_subst_prep(b0, root, func_index, a, i, parent_to_node, fuel, c, d, fa, ta, lo0, reused);
                }
                let new_child = if last_arg_allocation {
                    arg_index
                } else {
                    clone_subtree(tree, arg_index, parent_to_node, Ghost(fa), Ghost(c + d))
                };
                let ghost b1 = tree.backing@;
                proof {
                    if !last_arg_allocation {
                        lemma_reach_basics(b1, new_child.0 as int, fa);
                        crate::tree_facts::lemma_within_reach(b1, new_child.0 as int, b0.len() as int, b1.len() as int, fa);
                    }
                    assert(shape(b1[crate::subst_facts::edge_parent(parent_to_node)]) == shape(b0[crate::subst_facts::edge_parent(parent_to_node)]));
                }
                repoint_node(tree, parent_to_node, new_child);
                proof {
                    if last_arg_allocation {
                        lemma_var_reuse(b0, tree.backing@, root, func_index, a, i, parent_to_node, fuel, c, d, fa, ta, lo0, reused);
                    } else {
                        lemma_var_copy(b0, b1, tree.backing@, root, func_index, a, i, parent_to_node, fuel, c, d, fa, ta, lo0, reused, new_child);
                    }
                }
            } else {
                proof {
                    lemma_var_keep(b0, root, func_index, a, i, parent_to_node, fuel, c, d, fa, ta, lo0, reused);
                }
            }
        },
        NodeRef::Abs(abstraction, abs) => {
            let body = abstraction.body;
            proof {
                lemma_abs_pre(b0, root, func_index, a, i, parent_to_node, fuel, c, d, fa, ta, lo0, reused);
            }
            substitute_at(tree, func_index, arg_index, body, ParentEdge::AbsToBody(abs), Ghost((fuel - 1) as nat), Ghost(c), Ghost(d.push(abs)), Ghost(fa), Ghost(ta), Ghost(lo0), Ghost(reused));
            proof {
                lemma_abs_post(b0, tree.backing@, root, func_index, a, i, parent_to_node, fuel, c, d, fa, ta, lo0, reused);
            }
        },
        NodeRef::App(application, _) => {
            let func = application.func;
            let arg = application.arg;
            let ghost f1 = (fuel - 1) as nat;
            proof {
                lemma_app_pre(b0, root, func_index, a, i, parent_to_node, fuel, c, d, fa, ta, lo0, reused);
            }
            substitute_at(tree, func_index, arg_index, func, ParentEdge::AppToFunc(AppIndex(node_index)), Ghost(f1), Ghost(c), Ghost(d), Ghost(fa), Ghost(ta), Ghost(lo0), Ghost(reused));
            let ghost b1 = tree.backing@;
            let ghost reused_arg = reused || has_last(b0, func_index, func.0 as int, f1);
            proof {
                lemma_app_mid(b0, b1, root, func_index, a, i, parent_to_node, fuel, c, d, fa, ta, lo0, reused);
            }
            substitute_at(tree, func_index, arg_index, arg, ParentEdge::AppToArg(AppIndex(node_index)), Ghost(f1), Ghost(c), Ghost(d), Ghost(fa), Ghost(ta), Ghost(lo0),
                Ghost(reused_arg));
            proof {
                lemma_app_post(b0, b1, tree.backing@, root, func_index, a, i, parent_to_node, fuel, c, d, fa, ta, lo0, reused);
            }
        },
    }
}


impl FlatTree {
    /// The nodes reached from the root form a tree, no node shared, that holds a term; every
    /// contour starts well and every variable is linked back; and the vector has room left.
    pub open spec fn well_formed(&self) -> bool {
        &&& exists|f: nat|
            #[trigger] is_tree(self.backing@, self.root.0 as int, f) && node_view(self.backing@, self.root.0 as int, Seq::empty(), f) is Some
        &&& entrances_ok(self.backing@)
        &&& contours_linked(self.backing@)
        &&& self.backing@.len() < u32::MAX
    }

    /// Enough fuel to unfold a well-formed tree as a tree.
    pub open spec fn tree_fuel(&self) -> nat {
        choose|f: nat|
            #[trigger] is_tree(self.backing@, self.root.0 as int, f) && node_view(self.backing@, self.root.0 as int, Seq::empty(), f) is Some
    }

    /// The abstractions above the application of `r`, outermost first, and the edge that leads
    /// to it.
    pub open spec fn redex_place(&self, r: RedexMut) -> (Seq<AbsIndex>, ParentEdge) {
        locate(self.backing@, self.root.0 as int, ParentEdge::IntoRoot, Seq::empty(), self.tree_fuel(), r.app_index.0 as int)->0
    }

    /// `r` is a redex of the tree: its application is reached from the root by the edge it
    /// records, and it is what `try_get` finds there.
    pub open spec fn holds_redex(&self, r: RedexMut) -> bool {
        &&& locate(self.backing@, self.root.0 as int, ParentEdge::IntoRoot, Seq::empty(), self.tree_fuel(), r.app_index.0 as int) is Some
        &&& self.redex_place(r).1 == r.parent_to_app
        &&& redex_spec(self.backing@, r.debruijn_depth, r.parent_to_app, r.app_index) == Some(r)
    }

    /// The term at the application of `r`.
    pub open spec fn redex_term(&self, r: RedexMut) -> Debruijn {
        node_view(self.backing@, r.app_index.0 as int, self.redex_place(r).0, self.tree_fuel())->0
    }

    /// The term with the redex `r` contracted.
    pub open spec fn reduced(&self, r: RedexMut) -> Debruijn {
        reduced_view(self.backing@, self.root.0 as int, Seq::empty(), self.tree_fuel(), r.app_index.0 as int)->0
    }

    /// The vector has room for the copies of the argument of `r` that contracting it makes.
    pub open spec fn room_for(&self, r: RedexMut) -> bool {
        self.backing@.len() + bound_count(self.backing@, r.func_index, r.body_index.0 as int, self.tree_fuel()) * reach_size(
            self.backing@,
            r.arg_index.0 as int,
            self.tree_fuel(),
        ) < u32::MAX
    }
}

/// A redex listed by `get_redexes` is held by the tree.
pub proof fn lemma_listed_redex_held(t: FlatTree, r: RedexMut)
    requires
        t.well_formed(),
        nest(t.backing@, t.root.0 as int, t.tree_fuel()) <= usize::MAX,
        redexes_spec(t.backing@, t.root.0 as int, ParentEdge::IntoRoot, 0, t.fuel()).contains(r),
    ensures
        t.holds_redex(r),
{
    let b = t.backing@;
    let r0 = t.root.0 as int;
    let fuel = t.tree_fuel();
    let g = t.fuel();
    assert(is_tree(b, r0, fuel) && node_view(b, r0, Seq::empty(), fuel) is Some);
    lemma_nest_view(b, r0, Seq::empty(), g);
    lemma_tree_within(b, r0, fuel);
    if g <= fuel {
        lemma_redexes_fuel(b, r0, ParentEdge::IntoRoot, 0, g, fuel);
    } else {
        lemma_redexes_fuel(b, r0, ParentEdge::IntoRoot, 0, fuel, g);
    }
    lemma_redex_located(b, r0, ParentEdge::IntoRoot, Seq::empty(), fuel, r);
}

/// In a well-formed tree, a node reached from the root is an application of an abstraction
/// (what `RedexMut::is_redex` tells) exactly when `get_redexes` lists a redex there.
pub proof fn lemma_is_redex_listed(t: FlatTree, k: int)
    requires
        t.well_formed(),
        reach(t.backing@, t.root.0 as int, t.tree_fuel()).contains(k),
    ensures
        redex_at(t.backing@, k) <==> lists_app(redexes_spec(t.backing@, t.root.0 as int, ParentEdge::IntoRoot, 0, t.fuel()), k),
{
    let b = t.backing@;
    let r0 = t.root.0 as int;
    let fuel = t.tree_fuel();
    let g = t.fuel();
    assert(is_tree(b, r0, fuel) && node_view(b, r0, Seq::empty(), fuel) is Some);
    lemma_nest_view(b, r0, Seq::empty(), g);
    lemma_tree_within(b, r0, fuel);
    if g <= fuel {
        lemma_redexes_fuel(b, r0, ParentEdge::IntoRoot, 0, g, fuel);
    } else {
        lemma_redexes_fuel(b, r0, ParentEdge::IntoRoot, 0, fuel, g);
    }
    lemma_redexes_listed(b, r0, ParentEdge::IntoRoot, 0, fuel);
}

/// The redexes of a subtree within the vector do not change with more fuel.
pub proof fn lemma_redexes_fuel(b: Seq<Node>, i: int, e: ParentEdge, d: nat, f1: nat, f2: nat)
    requires
        within(b, i, 0, b.len() as int, f1),
        f1 <= f2,
    ensures
        redexes_spec(b, i, e, d, f2) == redexes_spec(b, i, e, d, f1),
    decreases f1,
{
    match b[i] {
        Node::Abs(abs) => {
            lemma_redexes_fuel(b, abs.body.0 as int, ParentEdge::AbsToBody(AbsIndex(BackingIndex(i as u32))), d + 1, (f1 - 1) as nat, (f2 - 1) as nat);
        },
        Node::App(app) => {
            lemma_redexes_fuel(b, app.func.0 as int, ParentEdge::AppToFunc(AppIndex(BackingIndex(i as u32))), d, (f1 - 1) as nat, (f2 - 1) as nat);
            lemma_redexes_fuel(b, app.arg.0 as int, ParentEdge::AppToArg(AppIndex(BackingIndex(i as u32))), d, (f1 - 1) as nat, (f2 - 1) as nat);
        },
        _ => {},
    }
}

/// What substituting the argument of a redex into the whole body needs: the facts of
/// `subst_node` for the body, reached from its abstraction, with no abstraction in between.
pub open spec fn body_ready(b: Seq<Node>, root: BackingIndex, redex: RedexMut, fuel: nat, c: Seq<AbsIndex>) -> bool {
    let f = redex.func_index;
    let fa = (fuel - 1) as nat;
    &&& fuel >= 3
    &&& node_view(b, redex.arg_index.0 as int, c, fa) is Some
    &&& f.0.0 < b.len()
    &&& b[f.0.0 as int] is Abs
    &&& b[f.0.0 as int]->Abs_0.body == redex.body_index
    &&& subst_node(b, root, f, redex.arg_index.0 as int, redex.body_index.0 as int, ParentEdge::AbsToBody(f), (fuel - 2) as nat, c,
        Seq::empty(), fa, node_view(b, redex.arg_index.0 as int, c, fa)->0, b.len() as int, false)
}

/// Replaces every variable bound to the abstraction of `redex` in its body by the argument.
fn substitute_nonzero_usage(tree: &mut FlatTree, redex: &RedexMut, Ghost(fuel): Ghost<nat>, Ghost(c): Ghost<Seq<AbsIndex>>)
    requires
        body_ready(old(tree).backing@, old(tree).root, *redex, fuel, c),
    ensures
        final(tree).root == old(tree).root,
        final(tree).garbage_count == old(tree).garbage_count,
        subst_result(old(tree).backing@, final(tree).backing@, old(tree).root, redex.func_index, redex.arg_index.0 as int,
            redex.body_index.0 as int, ParentEdge::AbsToBody(redex.func_index), (fuel - 2) as nat, c, Seq::empty(), (fuel - 1) as nat,
            node_view(old(tree).backing@, redex.arg_index.0 as int, c, (fuel - 1) as nat)->0),
{
    let ghost ta = node_view(tree.backing@, redex.arg_index.0 as int, c, (fuel - 1) as nat)->0;
    substitute_at(
        tree,
        redex.func_index,
        redex.arg_index,
        redex.body_index,
        ParentEdge::AbsToBody(redex.func_index),
        Ghost((fuel - 2) as nat),
        Ghost(c),
        Ghost(Seq::empty()),
        Ghost((fuel - 1) as nat),
        Ghost(ta),
        Ghost(tree.backing@.len() as int),
        Ghost(false),
    );
}

/// Substitutes the argument of `redex` into the body of its abstraction and returns the
/// position of the body: unchanged when the contour of the abstraction is empty.
fn substitute(tree: &mut FlatTree, redex: &RedexMut, Ghost(fuel): Ghost<nat>, Ghost(c): Ghost<Seq<AbsIndex>>) -> (new_body: BackingIndex)
    requires
        body_ready(old(tree).backing@, old(tree).root, *redex, fuel, c),
    ensures
        final(tree).root == old(tree).root,
        final(tree).garbage_count == old(tree).garbage_count,
        subst_result(old(tree).backing@, final(tree).backing@, old(tree).root, redex.func_index, redex.arg_index.0 as int,
            redex.body_index.0 as int, ParentEdge::AbsToBody(redex.func_index), (fuel - 2) as nat, c, Seq::empty(), (fuel - 1) as nat,
            node_view(old(tree).backing@, redex.arg_index.0 as int, c, (fuel - 1) as nat)->0),
        edge_child(final(tree).backing@, final(tree).root, ParentEdge::AbsToBody(redex.func_index)) == Some(new_body),
{
    let ghost b0 = tree.backing@;
    let ghost f = redex.func_index;
    let ghost fi = f.0.0 as int;
    proof {
        assert(entrance_ok(b0, fi));
    }
    if redex.body_usage(tree) == BodyUsage::Zero {
        proof {
            let i = redex.body_index.0 as int;
            let a = redex.arg_index.0 as int;
            let fb = (fuel - 2) as nat;
            let fa = (fuel - 1) as nat;
            let ta = node_view(b0, a, c, fa)->0;
            assert forall|k: int| 0 <= k < b0.len() && (#[trigger] b0[k]) is BoundVar implies binder(b0, b0[k]->BoundVar_0) != Some(f) by {
                lemma_empty_contour(b0, f, k);
            }
            lemma_count_zero(b0, f, i, fb);
            assert(c.push(f) + Seq::<AbsIndex>::empty() =~= c.push(f));
            assert(c + Seq::<AbsIndex>::empty() =~= c);
            lemma_subst_none(b0, i, c, f, Seq::empty(), fb, ta);
            lemma_reach_basics(b0, i, fb);
            lemma_tree_fuel(b0, i, fb, (fb + fa) as nat);
            lemma_view_fuel(b0, i, c, fb, (fb + fa) as nat);
            crate::subst_facts::lemma_edits_refl(b0);
            assert(BackingIndex(i as u32) == redex.body_index);
            assert(set_edge(b0, ParentEdge::AbsToBody(f), redex.body_index)[fi] == b0[fi]);
        }
        redex.body_index
    } else {
        substitute_nonzero_usage(tree, redex, Ghost(fuel), Ghost(c));
        proof {
            let b = tree.backing@;
            let pe = ParentEdge::AbsToBody(f);
            assert(edge_child(b, tree.root, pe) is Some);
        }
        tree.get_abs(redex.func_index).body
    }
}

/// Contracts the redex `redex` in place: the edge that led to its application now leads to the
/// body of its abstraction, in which each variable bound to the abstraction was replaced by the
/// argument, the last variable of its contour by the argument itself and the others by copies;
/// the application and the abstraction are left behind as garbage. Returns the position of the
/// new body.
#[verifier::rlimit(100)]
#[verifier::spinoff_prover]
pub fn beta_reduce(tree: &mut FlatTree, redex: &RedexMut) -> (new_body: BackingIndex)
    requires
        old(tree).well_formed(),
        old(tree).holds_redex(*redex),
        old(tree).room_for(*redex),
        2 * nest(old(tree).backing@, old(tree).root.0 as int, old(tree).tree_fuel()) <= usize::MAX,
        contraction_fits(old(tree).redex_term(*redex)),
    ensures
        final(tree).well_formed(),
        final(tree).term() == old(tree).reduced(*redex),
        final(tree).garbage_count == old(tree).garbage_count,
        edge_child(final(tree).backing@, final(tree).root, redex.parent_to_app) == Some(new_body),
{
    let ghost t0 = *tree;
    let ghost fuel = tree.tree_fuel();
    let ghost c = tree.redex_place(*redex).0;
    proof {
        assert(beta_ready(*tree, *redex));
        lemma_beta_ready(*tree, *redex);
    }
    let new_body = substitute(tree, redex, Ghost(fuel), Ghost(c));
    let ghost b1 = tree.backing@;
    proof {
        lemma_before_repoint(t0, b1, *redex, new_body);
    }
    repoint_node(tree, redex.parent_to_app, new_body);
    proof {
        if redex.parent_to_app is IntoRoot {
            lemma_done_root(t0, b1, *tree, *redex, new_body);
        } else {
            lemma_done_inner(t0, b1, *tree, *redex, new_body);
        }
    }
    new_body
}


} // verus!
