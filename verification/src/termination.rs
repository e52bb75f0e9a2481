//! Why affine terms are reduced to an end: a beta step on an application
//! whose function uses its variable at most once puts the argument in one
//! place at most, so the term gets smaller. That holds as long as terms stay
//! affine, and they do where no binder captures a variable of the argument:
//! where the bound names are kept apart.

use crate::normalizer::{
    lemma_ends_in_normal_form, lemma_more_steps, normal_form, normalizes, reduced_within,
    steps_needed, substituted,
};
use crate::term::Term;
use vstd::prelude::*;

verus! {

/// No binder of `body` binds a name that is free in `argument`.
pub open spec fn captures_nothing(body: Term, argument: Term) -> bool {
    forall|name: char| #[trigger] body.binder_count(name) >= 1 ==> argument.free_count(name) == 0
}

/// `end` binds no name more often than `term` does, and has no name free more
/// often.
pub open spec fn no_more_names(end: Term, term: Term) -> bool {
    &&& forall|name: char| #[trigger] end.binder_count(name) <= term.binder_count(name)
    &&& forall|name: char| #[trigger] end.free_count(name) <= term.free_count(name)
}

/// `end` is `term`, or is smaller.
pub open spec fn same_or_smaller(end: Term, term: Term) -> bool {
    end == term || end.size() < term.size()
}

/// Substitution for a name that is not free changes nothing.
pub proof fn lemma_substituted_absent(term: Term, name: char, replacement: Term)
    requires
        term.free_count(name) == 0,
    ensures
        substituted(term, name, replacement) == term,
    decreases term,
{
    match term {
        Term::Variable(_) => {},
        Term::Function(param, body) => {
            if param.letter() != name {
                lemma_substituted_absent(*body, name, replacement);
            }
        },
        Term::Application(left, right) => {
            lemma_substituted_absent(*left, name, replacement);
            lemma_substituted_absent(*right, name, replacement);
        },
    }
}

/// Substitution for a name that is free once, where nothing is captured: the
/// result is affine, holds the binders and free variables of both terms but
/// for the one variable that was replaced, and is smaller than both together.
pub proof fn lemma_substituted_once(term: Term, name: char, replacement: Term)
    requires
        term.free_count(name) == 1,
        term.affine(),
        replacement.affine(),
        captures_nothing(term, replacement),
    ensures
        substituted(term, name, replacement).affine(),
        substituted(term, name, replacement).size() + 1 == term.size() + replacement.size(),
        forall|other: char| #[trigger]
            substituted(term, name, replacement).binder_count(other) == term.binder_count(other)
                + replacement.binder_count(other),
        forall|other: char| #[trigger]
            substituted(term, name, replacement).free_count(other) == replacement.free_count(other)
                + if other == name {
                0
            } else {
                term.free_count(other)
            },
    decreases term,
{
    let result = substituted(term, name, replacement);
    match term {
        Term::Variable(_) => {},
        Term::Function(param, body) => {
            let bound_name = param.letter();
            assert(captures_nothing(*body, replacement)) by {
                assert forall|other: char| #[trigger]
                    body.binder_count(other) >= 1 implies replacement.free_count(other) == 0 by {
                    assert(term.binder_count(other) >= 1);
                }
            }
            lemma_substituted_once(*body, name, replacement);
            let inner = substituted(*body, name, replacement);
            assert(term.binder_count(bound_name) >= 1);
            assert(inner.free_count(bound_name) == body.free_count(bound_name));
            assert forall|other: char| #[trigger]
                result.binder_count(other) == term.binder_count(other) + replacement.binder_count(
                    other,
                ) by {
                assert(inner.binder_count(other) == body.binder_count(other)
                    + replacement.binder_count(other));
            }
            assert forall|other: char| #[trigger]
                result.free_count(other) == replacement.free_count(other) + if other == name {
                    0
                } else {
                    term.free_count(other)
                } by {
                if other == bound_name {
                    assert(term.binder_count(other) >= 1);
                } else {
                    assert(inner.free_count(other) == replacement.free_count(other) + if other
                        == name {
                        0
                    } else {
                        body.free_count(other)
                    });
                }
            }
        },
        Term::Application(left, right) => {
            let (hit, miss) = if left.free_count(name) == 1 {
                (*left, *right)
            } else {
                (*right, *left)
            };
            assert(captures_nothing(hit, replacement)) by {
                assert forall|other: char| #[trigger]
                    hit.binder_count(other) >= 1 implies replacement.free_count(other) == 0 by {
                    assert(term.binder_count(other) >= 1);
                }
            }
            lemma_substituted_once(hit, name, replacement);
            lemma_substituted_absent(miss, name, replacement);
            let changed = substituted(hit, name, replacement);
            assert forall|other: char| #[trigger]
                result.binder_count(other) == term.binder_count(other) + replacement.binder_count(
                    other,
                ) by {
                assert(changed.binder_count(other) == hit.binder_count(other)
                    + replacement.binder_count(other));
            }
            assert forall|other: char| #[trigger]
                result.free_count(other) == replacement.free_count(other) + if other == name {
                    0
                } else {
                    term.free_count(other)
                } by {
                assert(changed.free_count(other) == replacement.free_count(other) + if other
                    == name {
                    0
                } else {
                    hit.free_count(other)
                });
            }
        },
    }
}

/// A term that has no more names than one whose bound names are apart has
/// its bound names apart.
pub proof fn lemma_names_stay_apart(end: Term, term: Term)
    requires
        term.names_apart(),
        no_more_names(end, term),
    ensures
        end.names_apart(),
{
    assert forall|name: char| #[trigger] end.binder_count(name) >= 1 implies end.binder_count(name)
        == 1 && end.free_count(name) == 0 by {
        assert(end.binder_count(name) <= term.binder_count(name));
        assert(end.free_count(name) <= term.free_count(name));
    }
}

/// The parts of a term whose bound names are apart have their bound names
/// apart.
pub proof fn lemma_names_apart_in_parts(term: Term)
    requires
        term.names_apart(),
    ensures
        match term {
            Term::Variable(_) => true,
            Term::Function(_, body) => body.names_apart(),
            Term::Application(left, right) => left.names_apart() && right.names_apart(),
        },
{
    match term {
        Term::Variable(_) => {},
        Term::Function(param, body) => {
            assert forall|name: char| #[trigger] body.binder_count(name) >= 1 implies
                body.binder_count(name) == 1 && body.free_count(name) == 0 by {
                assert(term.binder_count(name) >= 1);
            }
        },
        Term::Application(left, right) => {
            assert forall|name: char| #[trigger] left.binder_count(name) >= 1 implies
                left.binder_count(name) == 1 && left.free_count(name) == 0 by {
                assert(term.binder_count(name) >= 1);
            }
            assert forall|name: char| #[trigger] right.binder_count(name) >= 1 implies
                right.binder_count(name) == 1 && right.free_count(name) == 0 by {
                assert(term.binder_count(name) >= 1);
            }
        },
    }
}

/// One beta step on an affine term whose bound names are apart gives a
/// smaller affine term with no more names.
pub proof fn lemma_step_shrinks(param: Term, body: Term, argument: Term)
    requires
        Term::Application(
            Box::new(Term::Function(Box::new(param), Box::new(body))),
            Box::new(argument),
        ).affine(),
        Term::Application(
            Box::new(Term::Function(Box::new(param), Box::new(body))),
            Box::new(argument),
        ).names_apart(),
    ensures
        substituted(body, param.letter(), argument).affine(),
        substituted(body, param.letter(), argument).size() < body.size() + argument.size() + 2,
        no_more_names(
            substituted(body, param.letter(), argument),
            Term::Application(
                Box::new(Term::Function(Box::new(param), Box::new(body))),
                Box::new(argument),
            ),
        ),
{
    let function = Term::Function(Box::new(param), Box::new(body));
    let term = Term::Application(Box::new(function), Box::new(argument));
    let name = param.letter();
    let next = substituted(body, name, argument);
    assert(function.affine());
    assert forall|other: char|
        body.binder_count(other) <= #[trigger] function.binder_count(other) by {}
    assert forall|other: char| #[trigger] function.free_count(other) == if other == name {
        0
    } else {
        body.free_count(other)
    } by {}
    if body.free_count(name) == 0 {
        lemma_substituted_absent(body, name, argument);
        assert forall|other: char| #[trigger]
            next.binder_count(other) <= term.binder_count(other) by {
            assert(body.binder_count(other) <= function.binder_count(other));
        }
        assert forall|other: char| #[trigger] next.free_count(other) <= term.free_count(other) by {
            assert(function.free_count(other) >= 0);
        }
    } else {
        assert(captures_nothing(body, argument)) by {
            assert forall|other: char| #[trigger]
                body.binder_count(other) >= 1 implies argument.free_count(other) == 0 by {
                assert(body.binder_count(other) <= function.binder_count(other));
                assert(term.binder_count(other) >= 1);
            }
        }
        lemma_substituted_once(body, name, argument);
        assert forall|other: char| #[trigger]
            next.binder_count(other) <= term.binder_count(other) by {
            assert(body.binder_count(other) <= function.binder_count(other));
            assert(next.binder_count(other) == body.binder_count(other) + argument.binder_count(
                other,
            ));
        }
        assert forall|other: char| #[trigger] next.free_count(other) <= term.free_count(other) by {
            assert(function.free_count(other) >= 0);
            assert(next.free_count(other) == argument.free_count(other) + if other == name {
                0
            } else {
                body.free_count(other)
            });
        }
    }
}

/// The reduction of an affine term whose bound names are apart ends, within
/// a bound of the size of the term. What it ends in is again such a term,
/// with no more names, and is smaller unless nothing was reduced.
pub proof fn lemma_reduced_within_size(term: Term)
    requires
        term.affine(),
        term.names_apart(),
    ensures
        reduced_within(term, term.size()) is Some,
        reduced_within(term, term.size())->0.affine(),
        reduced_within(term, term.size())->0.names_apart(),
        no_more_names(reduced_within(term, term.size())->0, term),
        same_or_smaller(reduced_within(term, term.size())->0, term),
    decreases term.size(),
{
    lemma_names_apart_in_parts(term);
    match term {
        Term::Variable(_) => {},
        Term::Function(param, body) => {
            lemma_reduced_within_size(*body);
            lemma_more_steps(*body, body.size(), term.size());
            let inner = reduced_within(*body, body.size())->0;
            let end = Term::Function(param, Box::new(inner));
            assert(inner.free_count(param.letter()) <= body.free_count(param.letter()));
            assert forall|name: char| #[trigger]
                end.binder_count(name) <= term.binder_count(name) by {
                assert(inner.binder_count(name) <= body.binder_count(name));
            }
            assert forall|name: char| #[trigger] end.free_count(name) <= term.free_count(name) by {
                assert(inner.free_count(name) <= body.free_count(name));
            }
            lemma_names_stay_apart(end, term);
        },
        Term::Application(left, right) => match *left {
            Term::Function(param, body) => {
                let next = substituted(*body, param.letter(), *right);
                lemma_step_shrinks(*param, *body, *right);
                lemma_names_stay_apart(next, term);
                lemma_reduced_within_size(next);
                lemma_more_steps(next, next.size(), (term.size() - 1) as nat);
                let end = reduced_within(next, next.size())->0;
                lemma_no_more_names_on(end, next, term);
                lemma_names_stay_apart(end, term);
            },
            _ => {
                lemma_reduced_within_size(*left);
                lemma_reduced_within_size(*right);
                lemma_more_steps(*left, left.size(), term.size());
                lemma_more_steps(*right, right.size(), term.size());
                let l = reduced_within(*left, left.size())->0;
                let r = reduced_within(*right, right.size())->0;
                let both = Term::Application(Box::new(l), Box::new(r));
                assert forall|name: char| #[trigger]
                    both.binder_count(name) <= term.binder_count(name) by {
                    assert(l.binder_count(name) <= left.binder_count(name));
                    assert(r.binder_count(name) <= right.binder_count(name));
                }
                assert forall|name: char| #[trigger]
                    both.free_count(name) <= term.free_count(name) by {
                    assert(l.free_count(name) <= left.free_count(name));
                    assert(r.free_count(name) <= right.free_count(name));
                }
                lemma_names_stay_apart(both, term);
                if l is Function {
                    lemma_reduced_within_size(both);
                    lemma_more_steps(both, both.size(), (term.size() - 1) as nat);
                    let end = reduced_within(both, both.size())->0;
                    lemma_no_more_names_on(end, both, term);
                    lemma_names_stay_apart(end, term);
                }
            },
        },
    }
}

/// Having no more names carries over.
pub proof fn lemma_no_more_names_on(end: Term, over: Term, term: Term)
    requires
        no_more_names(end, over),
        no_more_names(over, term),
    ensures
        no_more_names(end, term),
{
    assert forall|name: char| #[trigger] end.binder_count(name) <= term.binder_count(name) by {
        assert(over.binder_count(name) <= term.binder_count(name));
    }
    assert forall|name: char| #[trigger] end.free_count(name) <= term.free_count(name) by {
        assert(over.free_count(name) <= term.free_count(name));
    }
}

/// An affine term whose bound names are apart has a normal form: its
/// reduction ends, after no chain of steps longer than the term is large, in
/// a term of the same kind that is no larger.
pub proof fn lemma_affine_apart_normalizes(term: Term)
    requires
        term.affine(),
        term.names_apart(),
    ensures
        normalizes(term),
        steps_needed(term) <= term.size(),
        normal_form(term).affine(),
        normal_form(term).names_apart(),
        normal_form(term).size() <= term.size(),
{
    lemma_reduced_within_size(term);
    lemma_ends_in_normal_form(term, term.size());
}

} // verus!
