//! Beta reduction: a lambda application is reduced by putting the argument in
//! the place of the bound variable, `((λx. body) arg) ~> body[x <~ arg]`.
//!
//! Substitution does not rename bound variables. Where the argument has a free
//! variable of the name of a binder that encloses the place it is put in, that
//! binder captures the variable.

use crate::term::Term;
use vstd::pervasive::unreached;
use vstd::prelude::*;

verus! {

/// `term` with `replacement` in the place of every free occurrence of `name`.
/// A binder of `name` shadows it: nothing below such a binder changes.
pub open spec fn substituted(term: Term, name: char, replacement: Term) -> Term
    decreases term,
{
    match term {
        Term::Variable(found) => if found == name {
            replacement
        } else {
            term
        },
        Term::Function(param, body) => if param.letter() == name {
            term
        } else {
            Term::Function(param, Box::new(substituted(*body, name, replacement)))
        },
        Term::Application(left, right) => Term::Application(
            Box::new(substituted(*left, name, replacement)),
            Box::new(substituted(*right, name, replacement)),
        ),
    }
}

/// No application in `term` has a function on its left.
pub open spec fn in_normal_form(term: Term) -> bool
    decreases term,
{
    match term {
        Term::Variable(_) => true,
        Term::Function(_, body) => in_normal_form(*body),
        Term::Application(left, right) => {
            &&& !(*left is Function)
            &&& in_normal_form(*left)
            &&& in_normal_form(*right)
        },
    }
}

/// What the reduction gives where no chain of applications it takes up one
/// after another is longer than `steps`, and `None` where one is.
///
/// A function is reduced below its binder. An application with a function on
/// its left is taken up: the argument goes into the body as it stands, and the
/// result is reduced further. In any other application both sides are reduced
/// first; where that leaves a function on the left, the application of the
/// two results is taken up in turn.
pub open spec fn reduced_within(term: Term, steps: nat) -> Option<Term>
    decreases steps, term,
{
    match term {
        Term::Variable(_) => Some(term),
        Term::Function(param, body) => match reduced_within(*body, steps) {
            Some(inner) => Some(Term::Function(param, Box::new(inner))),
            None => None,
        },
        Term::Application(left, right) => match *left {
            Term::Function(param, body) => if steps == 0 {
                None
            } else {
                reduced_within(substituted(*body, param.letter(), *right), (steps - 1) as nat)
            },
            _ => match (reduced_within(*left, steps), reduced_within(*right, steps)) {
                (Some(l), Some(r)) => if l is Function {
                    if steps == 0 {
                        None
                    } else {
                        reduced_within(
                            Term::Application(Box::new(l), Box::new(r)),
                            (steps - 1) as nat,
                        )
                    }
                } else {
                    Some(Term::Application(Box::new(l), Box::new(r)))
                },
                _ => None,
            },
        },
    }
}

/// The reduction of `term` comes to an end.
pub open spec fn normalizes(term: Term) -> bool {
    exists|steps: nat| reduced_within(term, steps) is Some
}

/// `steps` is the least bound within which the reduction of `term` ends.
pub open spec fn is_least_bound(term: Term, steps: nat) -> bool {
    &&& reduced_within(term, steps) is Some
    &&& forall|fewer: nat| fewer < steps ==> reduced_within(term, fewer) is None
}

/// The least bound within which the reduction of `term` ends, where it ends.
pub open spec fn steps_needed(term: Term) -> nat {
    choose|steps: nat| is_least_bound(term, steps)
}

/// What the reduction of `term` ends in, where it ends.
pub open spec fn normal_form(term: Term) -> Term {
    reduced_within(term, steps_needed(term))->0
}

/// A larger bound changes nothing once the reduction has ended.
pub proof fn lemma_more_steps(term: Term, steps: nat, more: nat)
    requires
        reduced_within(term, steps) is Some,
        steps <= more,
    ensures
        reduced_within(term, more) == reduced_within(term, steps),
    decreases steps, term,
{
    match term {
        Term::Variable(_) => {},
        Term::Function(_, body) => {
            lemma_more_steps(*body, steps, more);
        },
        Term::Application(left, right) => match *left {
            Term::Function(param, body) => {
                lemma_more_steps(
                    substituted(*body, param.letter(), *right),
                    (steps - 1) as nat,
                    (more - 1) as nat,
                );
            },
            _ => {
                lemma_more_steps(*left, steps, more);
                lemma_more_steps(*right, steps, more);
                let l = reduced_within(*left, steps)->0;
                let r = reduced_within(*right, steps)->0;
                if l is Function {
                    lemma_more_steps(
                        Term::Application(Box::new(l), Box::new(r)),
                        (steps - 1) as nat,
                        (more - 1) as nat,
                    );
                }
            },
        },
    }
}

/// Among the bounds within which a reduction ends there is a least.
proof fn lemma_least_bound_exists(term: Term, steps: nat)
    requires
        reduced_within(term, steps) is Some,
    ensures
        exists|least: nat| least <= steps && is_least_bound(term, least),
    decreases steps,
{
    if exists|fewer: nat| fewer < steps && reduced_within(term, fewer) is Some {
        let fewer = choose|fewer: nat| fewer < steps && reduced_within(term, fewer) is Some;
        lemma_least_bound_exists(term, fewer);
    } else {
        assert(is_least_bound(term, steps));
    }
}

/// A reduction that ends within some bound ends in the normal form, and the
/// least bound is no larger.
pub proof fn lemma_ends_in_normal_form(term: Term, steps: nat)
    requires
        reduced_within(term, steps) is Some,
    ensures
        normalizes(term),
        is_least_bound(term, steps_needed(term)),
        steps_needed(term) <= steps,
        reduced_within(term, steps) == Some(normal_form(term)),
{
    lemma_least_bound_exists(term, steps);
    lemma_more_steps(term, steps_needed(term), steps);
}

/// How the reduction of a term goes on in its parts: what is reduced next
/// ends too, within no larger a bound, and within a smaller one where an
/// application was taken up.
pub proof fn lemma_reduction_unfolds(term: Term)
    requires
        normalizes(term),
    ensures
        match term {
            Term::Variable(_) => normal_form(term) == term,
            Term::Function(param, body) => {
                &&& normalizes(*body)
                &&& steps_needed(*body) <= steps_needed(term)
                &&& normal_form(term) == Term::Function(param, Box::new(normal_form(*body)))
            },
            Term::Application(left, right) => match *left {
                Term::Function(param, body) => {
                    let next = substituted(*body, param.letter(), *right);
                    &&& normalizes(next)
                    &&& steps_needed(next) < steps_needed(term)
                    &&& normal_form(term) == normal_form(next)
                },
                _ => {
                    let again = Term::Application(
                        Box::new(normal_form(*left)),
                        Box::new(normal_form(*right)),
                    );
                    &&& normalizes(*left)
                    &&& normalizes(*right)
                    &&& steps_needed(*left) <= steps_needed(term)
                    &&& steps_needed(*right) <= steps_needed(term)
                    &&& if normal_form(*left) is Function {
                        &&& normalizes(again)
                        &&& steps_needed(again) < steps_needed(term)
                        &&& normal_form(term) == normal_form(again)
                    } else {
                        normal_form(term) == again
                    }
                },
            },
        },
{
    let witness = choose|steps: nat| reduced_within(term, steps) is Some;
    lemma_ends_in_normal_form(term, witness);
    let steps = steps_needed(term);
    match term {
        Term::Variable(_) => {},
        Term::Function(_, body) => {
            lemma_ends_in_normal_form(*body, steps);
        },
        Term::Application(left, right) => match *left {
            Term::Function(param, body) => {
                lemma_ends_in_normal_form(
                    substituted(*body, param.letter(), *right),
                    (steps - 1) as nat,
                );
            },
            _ => {
                lemma_ends_in_normal_form(*left, steps);
                lemma_ends_in_normal_form(*right, steps);
                if normal_form(*left) is Function {
                    lemma_ends_in_normal_form(
                        Term::Application(
                            Box::new(normal_form(*left)),
                            Box::new(normal_form(*right)),
                        ),
                        (steps - 1) as nat,
                    );
                }
            },
        },
    }
}

/// Substitution keeps terms well formed.
pub proof fn lemma_substituted_well_formed(term: Term, name: char, replacement: Term)
    requires
        term.well_formed(),
        replacement.well_formed(),
    ensures
        substituted(term, name, replacement).well_formed(),
    decreases term,
{
    match term {
        Term::Variable(_) => {},
        Term::Function(_, body) => {
            lemma_substituted_well_formed(*body, name, replacement);
        },
        Term::Application(left, right) => {
            lemma_substituted_well_formed(*left, name, replacement);
            lemma_substituted_well_formed(*right, name, replacement);
        },
    }
}

/// What a reduction ends in is well formed where the term was, and has no
/// application left with a function on its left.
pub proof fn lemma_reduced_is_normal(term: Term, steps: nat)
    requires
        reduced_within(term, steps) is Some,
    ensures
        in_normal_form(reduced_within(term, steps)->0),
        term.well_formed() ==> reduced_within(term, steps)->0.well_formed(),
    decreases steps, term,
{
    match term {
        Term::Variable(_) => {},
        Term::Function(_, body) => {
            lemma_reduced_is_normal(*body, steps);
        },
        Term::Application(left, right) => match *left {
            Term::Function(param, body) => {
                if term.well_formed() {
                    assert(left.well_formed());
                    lemma_substituted_well_formed(*body, param.letter(), *right);
                }
                lemma_reduced_is_normal(
                    substituted(*body, param.letter(), *right),
                    (steps - 1) as nat,
                );
            },
            _ => {
                lemma_reduced_is_normal(*left, steps);
                lemma_reduced_is_normal(*right, steps);
                let l = reduced_within(*left, steps)->0;
                let r = reduced_within(*right, steps)->0;
                if l is Function {
                    lemma_reduced_is_normal(
                        Term::Application(Box::new(l), Box::new(r)),
                        (steps - 1) as nat,
                    );
                }
            },
        },
    }
}

/// A term in normal form is reduced to itself, within any bound.
pub proof fn lemma_normal_form_is_fixed(term: Term)
    requires
        in_normal_form(term),
    ensures
        reduced_within(term, 0) == Some(term),
        normalizes(term),
        normal_form(term) == term,
    decreases term,
{
    match term {
        Term::Variable(_) => {},
        Term::Function(_, body) => {
            lemma_normal_form_is_fixed(*body);
        },
        Term::Application(left, right) => {
            lemma_normal_form_is_fixed(*left);
            lemma_normal_form_is_fixed(*right);
        },
    }
    lemma_ends_in_normal_form(term, 0);
}

/// Reduction is idempotent: what a reduction ended in is reduced to itself.
pub proof fn lemma_normalize_idempotent(term: Term)
    requires
        normalizes(term),
    ensures
        in_normal_form(normal_form(term)),
        normalizes(normal_form(term)),
        normal_form(normal_form(term)) == normal_form(term),
{
    let steps = choose|steps: nat| reduced_within(term, steps) is Some;
    lemma_ends_in_normal_form(term, steps);
    lemma_reduced_is_normal(term, steps);
    lemma_normal_form_is_fixed(normal_form(term));
}

/// Puts `replacement` in the place of every free occurrence of `var` in
/// `term`. Bound variables are not renamed.
pub fn substitute(term: Term, var: char, replacement: Term) -> (result: Term)
    requires
        term.well_formed(),
    ensures
        result == substituted(term, var, replacement),
        replacement.well_formed() ==> result.well_formed(),
    decreases term,
{
    proof {
        if replacement.well_formed() {
            lemma_substituted_well_formed(term, var, replacement);
        }
    }
    match term {
        Term::Variable(found) => if found == var {
            replacement
        } else {
            Term::Variable(found)
        },
        Term::Function(param, body) => {
            if bound_name(&param) != var {
                Term::Function(param, Box::new(substitute(*body, var, replacement)))
            } else {
                Term::Function(param, body)
            }
        },
        Term::Application(left, right) => Term::Application(
            Box::new(substitute(*left, var, replacement.clone())),
            Box::new(substitute(*right, var, replacement)),
        ),
    }
}

/// The name that a binder's first field binds.
fn bound_name(param: &Term) -> (name: char)
    requires
        param is Variable,
    ensures
        name == param.letter(),
{
    match param {
        Term::Variable(name) => *name,
        _ => unreached(),
    }
}

/// Reduces `term` until no application with a function on its left remains.
///
/// The argument of an application goes into the function's body unreduced.
/// Not every reduction ends; this one is asked for only where it does. The
/// reduction of an affine term whose bound names are kept apart always ends.
/// Where it is not known to end, `normalize_within` reduces within a bound.
pub fn normalize(term: Term) -> (result: Term)
    requires
        term.well_formed(),
        normalizes(term),
    ensures
        result == normal_form(term),
        result.well_formed(),
        in_normal_form(result),
    decreases steps_needed(term), term,
{
    proof {
        lemma_reduction_unfolds(term);
        lemma_ends_in_normal_form(term, choose|steps: nat| reduced_within(term, steps) is Some);
        lemma_reduced_is_normal(term, steps_needed(term));
    }
    match term {
        Term::Variable(name) => Term::Variable(name),
        Term::Function(param, body) => Term::Function(param, Box::new(normalize(*body))),
        Term::Application(left, right) => {
            assert(left.well_formed() && right.well_formed());
            match *left {
                Term::Function(param, body) => {
                    let name = bound_name(&param);
                    normalize(substitute(*body, name, *right))
                },
                other => {
                    let left_norm = normalize(other);
                    let right_norm = normalize(*right);
                    if is_function(&left_norm) {
                        normalize(Term::Application(Box::new(left_norm), Box::new(right_norm)))
                    } else {
                        Term::Application(Box::new(left_norm), Box::new(right_norm))
                    }
                },
            }
        },
    }
}

/// Reduces `term` as `normalize` does, but takes up no chain of applications
/// longer than `steps`: `None` where the reduction would need more, and so for
/// every term whose reduction does not end.
pub fn normalize_within(term: Term, steps: usize) -> (result: Option<Term>)
    requires
        term.well_formed(),
    ensures
        result == reduced_within(term, steps as nat),
        result matches Some(reduced) ==> {
            &&& normalizes(term)
            &&& reduced == normal_form(term)
            &&& reduced.well_formed()
            &&& in_normal_form(reduced)
        },
    decreases steps, term,
{
    proof {
        if reduced_within(term, steps as nat) is Some {
            lemma_ends_in_normal_form(term, steps as nat);
            lemma_reduced_is_normal(term, steps as nat);
        }
    }
    match term {
        Term::Variable(name) => Some(Term::Variable(name)),
        Term::Function(param, body) => match normalize_within(*body, steps) {
            Some(inner) => Some(Term::Function(param, Box::new(inner))),
            None => None,
        },
        Term::Application(left, right) => {
            assert(left.well_formed() && right.well_formed());
            match *left {
                Term::Function(param, body) => {
                    if steps == 0 {
                        return None;
                    }
                    let name = bound_name(&param);
                    normalize_within(substitute(*body, name, *right), steps - 1)
                },
                other => {
                    let left_norm = normalize_within(other, steps)?;
                    let right_norm = normalize_within(*right, steps)?;
                    if is_function(&left_norm) {
                        if steps == 0 {
                            return None;
                        }
                        normalize_within(
                            Term::Application(Box::new(left_norm), Box::new(right_norm)),
                            steps - 1,
                        )
                    } else {
                        Some(Term::Application(Box::new(left_norm), Box::new(right_norm)))
                    }
                },
            }
        },
    }
}

/// Whether `term` is a function.
fn is_function(term: &Term) -> (yes: bool)
    ensures
        yes == (*term is Function),
{
    match term {
        Term::Function(_, _) => true,
        _ => false,
    }
}

} // verus!
