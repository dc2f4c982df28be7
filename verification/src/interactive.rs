//! The text of a flat term with one application marked, as the interactive reducer shows each
//! redex it offers.
use vstd::prelude::*;

use crate::debruijn::Debruijn;
use crate::flat_tree::{
    compute_debruijn_index_bound, compute_debruijn_index_free, node_view, AbsIndex, BackingIndex, FlatTree, Node,
};
use crate::print::{printed, PrintContext, PrintableTerm};
use crate::reduce::{depth_room, layout_fits, pending, Reducer};
use crate::flat_tree::{heights_fit, unflatten};

use crate::text::{decimal, decimal_string, string_of};

verus! {

/// `p` is the printable form of the term at `i` of `b` under the abstractions of `chain`: each
/// variable a leaf with its index in decimal, each abstraction headed by "λ ", and the
/// application at `h` (only that one) marked.
pub open spec fn printable_matches(p: PrintableTerm, b: Seq<Node>, i: int, chain: Seq<AbsIndex>, fuel: nat, h: BackingIndex) -> bool
    decreases fuel,
{
    &&& fuel > 0
    &&& 0 <= i < b.len()
    &&& match b[i] {
        Node::Abs(abs) => p matches PrintableTerm::Abstraction { body_head, body } && body_head@ == "λ "@
            && printable_matches(*body, b, abs.body.0 as int, chain.push(AbsIndex(BackingIndex(i as u32))), (fuel - 1) as nat, h),
        Node::App(app) => p matches PrintableTerm::Application { highlight, func, arg } && highlight == (i == h.0 as int)
            && printable_matches(*func, b, app.func.0 as int, chain, (fuel - 1) as nat, h) && printable_matches(
            *arg,
            b,
            app.arg.0 as int,
            chain,
            (fuel - 1) as nat,
            h,
        ),
        _ => p matches PrintableTerm::Leaf(s) && (node_view(b, i, chain, fuel) matches Some(Debruijn::Index(k)) && s@ == decimal(
            k as nat,
        )),
    }
}

/// Two printable forms of the same term print the same.
pub proof fn lemma_printable_unique(
    p1: PrintableTerm,
    p2: PrintableTerm,
    b: Seq<Node>,
    i: int,
    chain: Seq<AbsIndex>,
    fuel: nat,
    h: BackingIndex,
    ctx: PrintContext,
)
    requires
        printable_matches(p1, b, i, chain, fuel, h),
        printable_matches(p2, b, i, chain, fuel, h),
    ensures
        printed(p1, ctx) == printed(p2, ctx),
    decreases fuel,
{
    match b[i] {
        Node::Abs(abs) => {
            let ch = chain.push(AbsIndex(BackingIndex(i as u32)));
            let b1 = p1->Abstraction_body;
            let b2 = p2->Abstraction_body;
            lemma_printable_unique(*b1, *b2, b, abs.body.0 as int, ch, (fuel - 1) as nat, h, ctx.abs_parens_spec());
            lemma_printable_unique(*b1, *b2, b, abs.body.0 as int, ch, (fuel - 1) as nat, h, ctx.abs_not_parens_spec());
        },
        Node::App(app) => {
            lemma_printable_unique(*p1->Application_func, *p2->Application_func, b, app.func.0 as int, chain, (fuel - 1) as nat, h, ctx.left_app_spec());
            lemma_printable_unique(*p1->Application_arg, *p2->Application_arg, b, app.arg.0 as int, chain, (fuel - 1) as nat, h, ctx.right_app_spec());
        },
        _ => {},
    }
}

fn print_highlighted_at(
    tree: &FlatTree,
    chain: &mut Vec<AbsIndex>,
    highlighted: BackingIndex,
    index: BackingIndex,
    Ghost(fuel): Ghost<nat>,
) -> (p: PrintableTerm)
    requires
        node_view(tree.backing@, index.0 as int, old(chain)@, fuel) is Some,
    ensures
        printable_matches(p, tree.backing@, index.0 as int, old(chain)@, fuel, highlighted),
        final(chain)@ == old(chain)@,
    decreases fuel,
{
    match tree.get(index) {
        Node::FreeVar(free_var) => {
            let index = compute_debruijn_index_free(chain.as_slice(), free_var);
            PrintableTerm::Leaf(decimal_string(index))
        },
        Node::BoundVar(variable) => {
            let index = compute_debruijn_index_bound(tree, chain.as_slice(), variable);
            PrintableTerm::Leaf(decimal_string(index))
        },
        Node::Abs(abstraction) => {
            let abs_index = AbsIndex(index);
            chain.push(abs_index);
            let body = print_highlighted_at(tree, chain, highlighted, abstraction.body, Ghost((fuel - 1) as nat));
            chain.pop();
            proof {
                assert(chain@ =~= old(chain)@);
            }
            PrintableTerm::Abstraction { body_head: string_of("λ "), body: Box::new(body) }
        },
        Node::App(application) => {
            let func = print_highlighted_at(tree, chain, highlighted, application.func, Ghost((fuel - 1) as nat));
            let arg = print_highlighted_at(tree, chain, highlighted, application.arg, Ghost((fuel - 1) as nat));
            let highlight = index == highlighted;
            PrintableTerm::Application { highlight, func: Box::new(func), arg: Box::new(arg) }
        },
    }
}

/// The text of the term of `tree`, with the application at `highlighted` marked (its function
/// and argument each wrapped in escape sequences).
pub fn print_highlighted(tree: &FlatTree, highlighted: BackingIndex) -> (s: String)
    requires
        tree.valid(),
    ensures
        exists|p: PrintableTerm|
            printable_matches(p, tree.backing@, tree.root.0 as int, Seq::empty(), tree.fuel(), highlighted) && s@ == printed(
                p,
                PrintContext::initial(),
            ),
{
    let mut chain: Vec<AbsIndex> = Vec::new();
    proof {
        assert(chain@ =~= Seq::<AbsIndex>::empty());
    }
    let printable_terms = print_highlighted_at(tree, &mut chain, highlighted, tree.root, Ghost(tree.fuel()));
    printable_terms.print()
}

/// The state of the interactive reducer: the term being reduced, and the terms it came from,
/// the latest last.
pub struct Explorer {
    pub reducer: Reducer,
    pub history: Vec<Debruijn>,
}

impl Explorer {
    /// The tree of the reducer holds a term.
    pub open spec fn well_formed(&self) -> bool {
        self.reducer.tree.well_formed()
    }

    /// Starts at `term`, with no history.
    pub fn new(term: &Debruijn) -> (r: Explorer)
        requires
            term.indices_positive(),
            heights_fit(*term, 0),
            term.size() < u32::MAX,
        ensures
            r.well_formed(),
            r.reducer.tree.term() == *term,
            r.history@ == Seq::<Debruijn>::empty(),
    {
        Explorer { reducer: Reducer::new(term), history: Vec::new() }
    }

    /// Goes back to the latest term of the history, which leaves it; fails when the history is
    /// empty or that term cannot be laid out again, keeping the current term.
    pub fn back(&mut self) -> (ok: bool)
        requires
            old(self).well_formed(),
        ensures
            final(self).well_formed(),
            final(self).history@ == if old(self).history@.len() > 0 {
                old(self).history@.drop_last()
            } else {
                old(self).history@
            },
            ok <==> old(self).history@.len() > 0 && {
                let t = old(self).history@.last();
                t.indices_positive() && heights_fit(t, 0) && t.size() < u32::MAX
            },
            ok ==> final(self).reducer.tree.term() == old(self).history@.last(),
            !ok ==> final(self).reducer == old(self).reducer,
    {
        match self.history.pop() {
            None => false,
            Some(previous) => {
                if !layout_fits(&previous) {
                    return false;
                }
                self.reducer = Reducer::new(&previous);
                true
            },
        }
    }

    /// Contracts the redex of index `k` among the pending ones, after putting the current term
    /// in the history; when the contraction cannot be made nothing changes.
    pub fn reduce(&mut self, k: usize) -> (ok: bool)
        requires
            old(self).well_formed(),
        ensures
            final(self).well_formed(),
            ok <==> depth_room(old(self).reducer.tree) && k < pending(old(self).reducer.tree).len()
                && old(self).reducer.tree.room_for(pending(old(self).reducer.tree)[k as int]),
            ok ==> final(self).reducer.tree.term() == old(self).reducer.tree.reduced(pending(old(self).reducer.tree)[k as int]),
            ok ==> final(self).history@ == old(self).history@.push(old(self).reducer.tree.term()),
            !ok ==> final(self).reducer == old(self).reducer && final(self).history@ == old(self).history@,
    {
        proof {
            self.reducer.tree.lemma_term_fuel(self.reducer.tree.tree_fuel());
        }
        let current = unflatten(&self.reducer.tree);
        if self.reducer.reduce_at(k) {
            self.history.push(current);
            true
        } else {
            false
        }
    }
}

} // verus!
