//! The beta relation on terms, and that the normalizer moves along it.

use crate::normalizer::{
    in_normal_form, lemma_ends_in_normal_form, lemma_reduced_is_normal, normal_form, normalizes,
    reduced_within, substituted,
};
use crate::term::Term;
use vstd::prelude::*;

verus! {

/// `next` comes from `term` by one beta step: one application with a function
/// on its left, anywhere in `term`, is replaced by the function's body with
/// the argument in the place of the bound variable.
pub open spec fn steps_to(term: Term, next: Term) -> bool
    decreases term,
{
    match term {
        Term::Variable(_) => false,
        Term::Function(param, body) => match next {
            Term::Function(next_param, next_body) => next_param == param && steps_to(
                *body,
                *next_body,
            ),
            _ => false,
        },
        Term::Application(left, right) => {
            ||| match *left {
                Term::Function(param, body) => next == substituted(*body, param.letter(), *right),
                _ => false,
            }
            ||| match next {
                Term::Application(next_left, next_right) => {
                    ||| steps_to(*left, *next_left) && next_right == right
                    ||| next_left == left && steps_to(*right, *next_right)
                },
                _ => false,
            }
        },
    }
}

/// `next` comes from `term` by `count` beta steps.
pub open spec fn reduces_in(term: Term, next: Term, count: nat) -> bool
    decreases count,
{
    if count == 0 {
        next == term
    } else {
        exists|mid: Term| #[trigger] steps_to(term, mid) && reduces_in(mid, next, (count - 1) as nat)
    }
}

/// `next` comes from `term` by beta steps, or is `term`.
pub open spec fn reduces_to(term: Term, next: Term) -> bool {
    exists|count: nat| reduces_in(term, next, count)
}

/// Beta steps follow one another.
pub proof fn lemma_reduces_on(from: Term, over: Term, to: Term, first: nat, second: nat)
    requires
        reduces_in(from, over, first),
        reduces_in(over, to, second),
    ensures
        reduces_in(from, to, first + second),
    decreases first,
{
    if first > 0 {
        let mid = choose|mid: Term| #[trigger]
            steps_to(from, mid) && reduces_in(mid, over, (first - 1) as nat);
        lemma_reduces_on(mid, over, to, (first - 1) as nat, second);
    }
}

/// Beta steps in a body are beta steps of the function.
pub proof fn lemma_reduces_below_binder(param: Term, body: Term, next: Term, count: nat)
    requires
        reduces_in(body, next, count),
    ensures
        reduces_in(
            Term::Function(Box::new(param), Box::new(body)),
            Term::Function(Box::new(param), Box::new(next)),
            count,
        ),
    decreases count,
{
    if count > 0 {
        let mid = choose|mid: Term| #[trigger]
            steps_to(body, mid) && reduces_in(mid, next, (count - 1) as nat);
        lemma_reduces_below_binder(param, mid, next, (count - 1) as nat);
        assert(steps_to(
            Term::Function(Box::new(param), Box::new(body)),
            Term::Function(Box::new(param), Box::new(mid)),
        ));
    }
}

/// Beta steps on the left of an application are beta steps of the application.
pub proof fn lemma_reduces_on_the_left(left: Term, next: Term, right: Term, count: nat)
    requires
        reduces_in(left, next, count),
    ensures
        reduces_in(
            Term::Application(Box::new(left), Box::new(right)),
            Term::Application(Box::new(next), Box::new(right)),
            count,
        ),
    decreases count,
{
    if count > 0 {
        let mid = choose|mid: Term| #[trigger]
            steps_to(left, mid) && reduces_in(mid, next, (count - 1) as nat);
        lemma_reduces_on_the_left(mid, next, right, (count - 1) as nat);
        assert(steps_to(
            Term::Application(Box::new(left), Box::new(right)),
            Term::Application(Box::new(mid), Box::new(right)),
        ));
    }
}

/// Beta steps on the right of an application are beta steps of the
/// application.
pub proof fn lemma_reduces_on_the_right(left: Term, right: Term, next: Term, count: nat)
    requires
        reduces_in(right, next, count),
    ensures
        reduces_in(
            Term::Application(Box::new(left), Box::new(right)),
            Term::Application(Box::new(left), Box::new(next)),
            count,
        ),
    decreases count,
{
    if count > 0 {
        let mid = choose|mid: Term| #[trigger]
            steps_to(right, mid) && reduces_in(mid, next, (count - 1) as nat);
        lemma_reduces_on_the_right(left, mid, next, (count - 1) as nat);
        assert(steps_to(
            Term::Application(Box::new(left), Box::new(right)),
            Term::Application(Box::new(left), Box::new(mid)),
        ));
    }
}

/// What the reduction of a term ends in comes from the term by beta steps.
pub proof fn lemma_reduced_by_beta_steps(term: Term, steps: nat)
    requires
        reduced_within(term, steps) is Some,
    ensures
        reduces_to(term, reduced_within(term, steps)->0),
    decreases steps, term,
{
    let end = reduced_within(term, steps)->0;
    match term {
        Term::Variable(_) => {
            assert(reduces_in(term, end, 0));
        },
        Term::Function(param, body) => {
            lemma_reduced_by_beta_steps(*body, steps);
            let inner = reduced_within(*body, steps)->0;
            let count = choose|count: nat| reduces_in(*body, inner, count);
            lemma_reduces_below_binder(*param, *body, inner, count);
            assert(reduces_in(term, end, count));
        },
        Term::Application(left, right) => match *left {
            Term::Function(param, body) => {
                let next = substituted(*body, param.letter(), *right);
                lemma_reduced_by_beta_steps(next, (steps - 1) as nat);
                let count = choose|count: nat| reduces_in(next, end, count);
                assert(steps_to(term, next));
                assert(reduces_in(term, end, count + 1));
            },
            _ => {
                lemma_reduced_by_beta_steps(*left, steps);
                lemma_reduced_by_beta_steps(*right, steps);
                let l = reduced_within(*left, steps)->0;
                let r = reduced_within(*right, steps)->0;
                let on_the_left = choose|count: nat| reduces_in(*left, l, count);
                let on_the_right = choose|count: nat| reduces_in(*right, r, count);
                let half = Term::Application(Box::new(l), right);
                let both = Term::Application(Box::new(l), Box::new(r));
                lemma_reduces_on_the_left(*left, l, *right, on_the_left);
                lemma_reduces_on_the_right(l, *right, r, on_the_right);
                lemma_reduces_on(term, half, both, on_the_left, on_the_right);
                if l is Function {
                    lemma_reduced_by_beta_steps(both, (steps - 1) as nat);
                    let rest = choose|count: nat| reduces_in(both, end, count);
                    lemma_reduces_on(term, both, end, on_the_left + on_the_right, rest);
                    assert(reduces_in(term, end, on_the_left + on_the_right + rest));
                } else {
                    assert(reduces_in(term, end, on_the_left + on_the_right));
                }
            },
        },
    }
}

/// The normal form of a term is a beta normal form of it: it comes from the
/// term by beta steps, and no beta step is left to take in it.
pub proof fn lemma_normal_form_is_beta_normal(term: Term)
    requires
        normalizes(term),
    ensures
        reduces_to(term, normal_form(term)),
        in_normal_form(normal_form(term)),
        forall|next: Term| !steps_to(normal_form(term), next),
{
    let steps = choose|steps: nat| reduced_within(term, steps) is Some;
    lemma_ends_in_normal_form(term, steps);
    lemma_reduced_is_normal(term, steps);
    lemma_reduced_by_beta_steps(term, steps);
    assert forall|next: Term| !steps_to(normal_form(term), next) by {
        lemma_no_step_from_normal_form(normal_form(term), next);
    }
}

/// No beta step leads on from a term in which no application has a function
/// on its left.
pub proof fn lemma_no_step_from_normal_form(term: Term, next: Term)
    requires
        in_normal_form(term),
    ensures
        !steps_to(term, next),
    decreases term,
{
    match term {
        Term::Variable(_) => {},
        Term::Function(_, body) => {
            if let Term::Function(_, next_body) = next {
                lemma_no_step_from_normal_form(*body, *next_body);
            }
        },
        Term::Application(left, right) => {
            if let Term::Application(next_left, next_right) = next {
                lemma_no_step_from_normal_form(*left, *next_left);
                lemma_no_step_from_normal_form(*right, *next_right);
            }
        },
    }
}

} // verus!
