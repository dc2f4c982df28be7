//! A direct, tree-based beta reducer used as the reference for the others: leftmost-outermost
//! reduction by substitution with index shifting.
use vstd::prelude::*;

use crate::debruijn::Debruijn;

verus! {

/// `t` with every index at or above `cutoff` (counted from the top of `t`; each enclosing
/// abstraction raises the cutoff by one) moved by `amount`.
pub open spec fn shift_spec(t: Debruijn, amount: int, cutoff: nat) -> Debruijn
    decreases t,
{
    match t {
        Debruijn::Index(i) => if i < cutoff {
            Debruijn::Index(i)
        } else {
            Debruijn::Index((i + amount) as usize)
        },
        Debruijn::Application { func, arg } => Debruijn::Application {
            func: Box::new(shift_spec(*func, amount, cutoff)),
            arg: Box::new(shift_spec(*arg, amount, cutoff)),
        },
        Debruijn::Abstraction { body } => Debruijn::Abstraction {
            body: Box::new(shift_spec(*body, amount, cutoff + 1)),
        },
    }
}

/// The shift stays within `usize`: every moved index stays in range, and the cutoff can be
/// raised under each abstraction.
pub open spec fn can_shift(t: Debruijn, amount: int, cutoff: nat) -> bool
    decreases t,
{
    match t {
        Debruijn::Index(i) => i < cutoff || 0 <= i + amount <= usize::MAX,
        Debruijn::Application { func, arg } => can_shift(*func, amount, cutoff) && can_shift(
            *arg,
            amount,
            cutoff,
        ),
        Debruijn::Abstraction { body } => cutoff < usize::MAX && can_shift(
            *body,
            amount,
            cutoff + 1,
        ),
    }
}

/// `t` with the variable of index `depth` (one more under each abstraction) replaced by
/// `value`, whose free indices are raised by one under each abstraction.
pub open spec fn subst_spec(t: Debruijn, value: Debruijn, depth: nat) -> Debruijn
    decreases t,
{
    match t {
        Debruijn::Index(i) => if i == depth {
            value
        } else {
            Debruijn::Index(i)
        },
        Debruijn::Application { func, arg } => Debruijn::Application {
            func: Box::new(subst_spec(*func, value, depth)),
            arg: Box::new(subst_spec(*arg, value, depth)),
        },
        Debruijn::Abstraction { body } => Debruijn::Abstraction {
            body: Box::new(subst_spec(*body, shift_spec(value, 1, 1), depth + 1)),
        },
    }
}

/// The substitution stays within `usize`.
pub open spec fn can_subst(t: Debruijn, value: Debruijn, depth: nat) -> bool
    decreases t,
{
    match t {
        Debruijn::Index(_) => true,
        Debruijn::Application { func, arg } => can_subst(*func, value, depth) && can_subst(
            *arg,
            value,
            depth,
        ),
        Debruijn::Abstraction { body } => depth < usize::MAX && can_shift(value, 1, 1)
            && can_subst(*body, shift_spec(value, 1, 1), depth + 1),
    }
}

/// The beta reduction of `(λ body) arg`.
pub open spec fn beta_spec(body: Debruijn, arg: Debruijn) -> Debruijn {
    shift_spec(subst_spec(body, shift_spec(arg, 1, 1), 1), -1, 1)
}

/// The beta reduction of `(λ body) arg` stays within `usize`.
pub open spec fn can_beta(body: Debruijn, arg: Debruijn) -> bool {
    &&& can_shift(arg, 1, 1)
    &&& can_subst(body, shift_spec(arg, 1, 1), 1)
    &&& can_shift(subst_spec(body, shift_spec(arg, 1, 1), 1), -1, 1)
}

/// Whether `t` is an application of an abstraction.
pub open spec fn is_redex_spec(t: Debruijn) -> bool {
    match t {
        Debruijn::Application { func, arg } => (*func) is Abstraction,
        _ => false,
    }
}

/// Whether no subterm of `t` is a redex (beta normal form).
pub open spec fn is_normal(t: Debruijn) -> bool
    decreases t,
{
    match t {
        Debruijn::Index(_) => true,
        Debruijn::Application { func, arg } => !((*func) is Abstraction) && is_normal(*func)
            && is_normal(*arg),
        Debruijn::Abstraction { body } => is_normal(*body),
    }
}

/// One leftmost-outermost reduction step, or `None` for a normal form.
pub open spec fn step(t: Debruijn) -> Option<Debruijn>
    decreases t,
{
    match t {
        Debruijn::Index(_) => None,
        Debruijn::Application { func, arg } => match *func {
            Debruijn::Abstraction { body } => Some(beta_spec(*body, *arg)),
            _ => match step(*func) {
                Some(f) => Some(Debruijn::Application { func: Box::new(f), arg }),
                None => match step(*arg) {
                    Some(a) => Some(Debruijn::Application { func, arg: Box::new(a) }),
                    None => None,
                },
            },
        },
        Debruijn::Abstraction { body } => match step(*body) {
            Some(b) => Some(Debruijn::Abstraction { body: Box::new(b) }),
            None => None,
        },
    }
}

/// The step taken from `t` stays within `usize`.
pub open spec fn step_ok(t: Debruijn) -> bool
    decreases t,
{
    match t {
        Debruijn::Index(_) => true,
        Debruijn::Application { func, arg } => match *func {
            Debruijn::Abstraction { body } => can_beta(*body, *arg),
            _ => if step(*func) is Some {
                step_ok(*func)
            } else {
                step_ok(*arg)
            },
        },
        Debruijn::Abstraction { body } => step_ok(*body),
    }
}

/// `t` after `n` steps (a normal form stays as it is).
pub open spec fn steps(t: Debruijn, n: nat) -> Debruijn
    decreases n,
{
    if n == 0 {
        t
    } else {
        match step(steps(t, (n - 1) as nat)) {
            Some(next) => next,
            None => steps(t, (n - 1) as nat),
        }
    }
}

/// A term has no step exactly when it is in beta normal form.
pub proof fn lemma_step_none_iff_normal(t: Debruijn)
    ensures
        step(t) is None <==> is_normal(t),
    decreases t,
{
    match t {
        Debruijn::Index(_) => {},
        Debruijn::Application { func, arg } => {
            lemma_step_none_iff_normal(*func);
            lemma_step_none_iff_normal(*arg);
        },
        Debruijn::Abstraction { body } => {
            lemma_step_none_iff_normal(*body);
        },
    }
}

/// Taking no step never overflows.
pub proof fn lemma_normal_step_ok(t: Debruijn)
    requires
        step(t) is None,
    ensures
        step_ok(t),
    decreases t,
{
    match t {
        Debruijn::Index(_) => {},
        Debruijn::Application { func, arg } => {
            lemma_normal_step_ok(*func);
            lemma_normal_step_ok(*arg);
        },
        Debruijn::Abstraction { body } => {
            lemma_normal_step_ok(*body);
        },
    }
}

/// Shifting up by `n` and back down by `n` at the same cutoff gives the term back.
pub proof fn lemma_shift_roundtrip(t: Debruijn, n: int, cutoff: nat)
    requires
        n >= 0,
        can_shift(t, n, cutoff),
    ensures
        shift_spec(shift_spec(t, n, cutoff), -n, cutoff) == t,
    decreases t,
{
    match t {
        Debruijn::Index(i) => {},
        Debruijn::Application { func, arg } => {
            lemma_shift_roundtrip(*func, n, cutoff);
            lemma_shift_roundtrip(*arg, n, cutoff);
        },
        Debruijn::Abstraction { body } => {
            lemma_shift_roundtrip(*body, n, cutoff + 1);
        },
    }
}

/// Once a normal form is reached, further steps leave it unchanged.
pub proof fn lemma_steps_stay_normal(t: Debruijn, k: nat, n: nat)
    requires
        k <= n,
        step(steps(t, k)) is None,
    ensures
        steps(t, n) == steps(t, k),
    decreases n - k,
{
    if k < n {
        lemma_steps_stay_normal(t, k, (n - 1) as nat);
    }
}

/// Whether the last reduction loop ended in a normal form.
pub enum ReduceResult {
    NormalForm,
    NotNormalForm,
}

/// Performs up to `limit` leftmost-outermost steps on `term`, reporting whether a normal
/// form was reached within them.
pub fn reduce(term: &mut Debruijn, limit: usize) -> (r: ReduceResult)
    requires
        forall|k: nat| k < limit ==> #[trigger] step_ok(steps(*old(term), k)),
    ensures
        *final(term) == steps(*old(term), limit as nat),
        r is NormalForm <==> (limit > 0 && step(steps(*old(term), (limit - 1) as nat)) is None),
{
    let ghost t0 = *term;
    let mut i: usize = 0;
    while i < limit
        invariant
            i <= limit,
            *term == steps(t0, i as nat),
            t0 == *old(term),
            forall|k: nat| k < limit ==> #[trigger] step_ok(steps(t0, k)),
            forall|k: nat| k < i ==> step(#[trigger] steps(t0, k)) is Some,
        decreases limit - i,
    {
        assert(step_ok(steps(t0, i as nat)));
        let did_reduce = reduce_one(term);
        if !did_reduce {
            proof {
                lemma_steps_stay_normal(t0, i as nat, limit as nat);
                if i < limit - 1 {
                    lemma_steps_stay_normal(t0, i as nat, (limit - 1) as nat);
                }
            }
            return ReduceResult::NormalForm;
        }
        i = i + 1;
    }
    proof {
        if limit > 0 {
            assert(step(steps(t0, (limit - 1) as nat)) is Some);
        }
    }
    ReduceResult::NotNormalForm
}

/// Performs one leftmost-outermost step, reporting whether there was one.
fn reduce_one(term: &mut Debruijn) -> (r: bool)
    requires
        step_ok(*old(term)),
    ensures
        r == step(*old(term)) is Some,
        r ==> Some(*final(term)) == step(*old(term)),
        !r ==> *final(term) == *old(term),
    decreases *old(term),
{
    let redex = is_redex(term);
    match term {
        Debruijn::Index(_) => false,
        Debruijn::Application { func, arg } => {
            if redex {
                let reduced = beta_reduce(func, arg);
                *term = reduced;
                true
            } else {
                proof {
                    if step(**func) is None {
                        lemma_normal_step_ok(**func);
                    }
                }
                let reduced = reduce_one(func);
                if reduced {
                    true
                } else {
                    reduce_one(arg)
                }
            }
        },
        Debruijn::Abstraction { body } => reduce_one(body),
    }
}

/// Whether `term` is an application of an abstraction.
fn is_redex(term: &Debruijn) -> (r: bool)
    ensures
        r == is_redex_spec(*term),
{
    match term {
        Debruijn::Application { func, .. } => match **func {
            Debruijn::Abstraction { .. } => true,
            _ => false,
        },
        _ => false,
    }
}

/// The reduct of `func expr`, where `func` is an abstraction.
pub fn beta_reduce(func: &Debruijn, expr: &Debruijn) -> (r: Debruijn)
    requires
        func is Abstraction,
        can_beta(*func->body, *expr),
    ensures
        r == beta_spec(*func->body, *expr),
{
    let body = match func {
        Debruijn::Abstraction { body } => body.copy(),
        _ => {
            proof {
                assert(false);
            }
            Debruijn::Index(0)
        },
    };
    let term = shift_cutoff(expr, 1);
    let substituted = substitute(&body, &term, 1);
    shift_cutoff(&substituted, -1)
}

/// Replaces the variable of index `depth` in `term` by `value`.
pub fn substitute(term: &Debruijn, value: &Debruijn, depth: usize) -> (r: Debruijn)
    requires
        can_subst(*term, *value, depth as nat),
    ensures
        r == subst_spec(*term, *value, depth as nat),
    decreases term,
{
    match term {
        Debruijn::Index(term_index) => {
            if *term_index == depth {
                value.copy()
            } else {
                Debruijn::Index(*term_index)
            }
        },
        Debruijn::Application { func, arg } => {
            let func = substitute(func, value, depth);
            let arg = substitute(arg, value, depth);
            Debruijn::Application { func: Box::new(func), arg: Box::new(arg) }
        },
        Debruijn::Abstraction { body } => {
            let term2 = shift_cutoff(value, 1);
            let body = substitute(body, &term2, depth + 1);
            Debruijn::Abstraction { body: Box::new(body) }
        },
    }
}

/// Moves every index of `term` by `amount` (all indices are at least the cutoff 1).
pub fn shift_cutoff(term: &Debruijn, amount: isize) -> (r: Debruijn)
    requires
        can_shift(*term, amount as int, 1),
    ensures
        r == shift_spec(*term, amount as int, 1),
{
    shift_cutoff_at(term, amount, 1)
}

fn shift_cutoff_at(term: &Debruijn, amount: isize, depth: usize) -> (r: Debruijn)
    requires
        can_shift(*term, amount as int, depth as nat),
    ensures
        r == shift_spec(*term, amount as int, depth as nat),
    decreases term,
{
    match term {
        Debruijn::Index(index) => {
            if *index < depth {
                Debruijn::Index(*index)
            } else {
                match index.checked_add_signed(amount) {
                    Some(index) => Debruijn::Index(index),
                    None => {
                        proof {
                            assert(false);
                        }
                        Debruijn::Index(0)
                    },
                }
            }
        },
        Debruijn::Application { func, arg } => {
            let func = shift_cutoff_at(func, amount, depth);
            let arg = shift_cutoff_at(arg, amount, depth);
            Debruijn::Application { func: Box::new(func), arg: Box::new(arg) }
        },
        Debruijn::Abstraction { body } => {
            let body = shift_cutoff_at(body, amount, depth + 1);
            Debruijn::Abstraction { body: Box::new(body) }
        },
    }
}

} // verus!
