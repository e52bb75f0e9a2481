//! What the parser reads, stated over sequences of characters.
//!
//! ```text
//! term        := function | application | variable
//! function    := '@' variable '.' term
//! application := '(' term ' ' term ')'
//! variable    := 'a' | ... | 'z'
//! ```
//!
//! A term is read from left to right and the first fault ends the reading.
//! While a function's body is read, its bound name is in scope and may be used
//! once; a second use is a fault then and there.

use crate::parser::ParseError;
use crate::term::{is_letter, Term};
use vstd::prelude::*;

verus! {

/// How reading one term at a position ends.
pub enum Outcome {
    /// A term that took up `len` characters, and the scope after it.
    Parsed { term: Term, len: nat, scope: Map<char, bool> },
    /// The first fault, and the position of the character it was found at.
    Failed { error: ParseError, at: nat },
}

/// The scope while a body that binds `name` is read: `name` is bound anew and
/// not yet used, whatever an enclosing binder of the same name had.
pub open spec fn bound(scope: Map<char, bool>, name: char) -> Map<char, bool> {
    scope.insert(name, false)
}

/// The scope after that body: `name` is what it was in `outer`, and the other
/// names are as the body left them.
pub open spec fn released(inner: Map<char, bool>, outer: Map<char, bool>, name: char) -> Map<
    char,
    bool,
> {
    if outer.contains_key(name) {
        inner.insert(name, outer[name])
    } else {
        inner.remove(name)
    }
}

/// `name` is bound and has been used.
pub open spec fn spent(scope: Map<char, bool>, name: char) -> bool {
    scope.contains_key(name) && scope[name]
}

/// The scope after a use of `name`. A name that no binder binds is free to be
/// used, and the scope keeps no record of it.
pub open spec fn used(scope: Map<char, bool>, name: char) -> Map<char, bool> {
    if scope.contains_key(name) {
        scope.insert(name, true)
    } else {
        scope
    }
}

/// The character at `pos`, or the fault of reading past the end.
pub open spec fn peeked(s: Seq<char>, pos: nat) -> Result<char, ParseError> {
    if pos >= s.len() {
        Err(ParseError::UnexpectedEndOfInput)
    } else {
        Ok(s[pos as int])
    }
}

/// The fault, if any, of requiring the character `expected` at `pos`.
pub open spec fn missing(s: Seq<char>, pos: nat, expected: char) -> Option<ParseError> {
    match peeked(s, pos) {
        Err(error) => Some(error),
        Ok(found) => if found == expected {
            None
        } else {
            Some(ParseError::ExpectedCharacter(expected, found))
        },
    }
}

/// The fault, if any, of requiring a variable's name at `pos`.
pub open spec fn unnamed(s: Seq<char>, pos: nat) -> Option<ParseError> {
    match peeked(s, pos) {
        Err(error) => Some(error),
        Ok(found) => if is_letter(found) {
            None
        } else {
            Some(ParseError::InvalidVariableName(found))
        },
    }
}

/// Reads a term at `pos`: the next character decides which kind.
pub open spec fn read_term(s: Seq<char>, pos: nat, scope: Map<char, bool>) -> Outcome
    decreases s.len() - pos, 1nat,
{
    match peeked(s, pos) {
        Err(error) => Outcome::Failed { error, at: pos },
        Ok(next) => if next == '@' {
            read_function(s, pos, scope)
        } else if next == '(' {
            read_application(s, pos, scope)
        } else if is_letter(next) {
            if spent(scope, next) {
                Outcome::Failed { error: ParseError::AffineViolation(next), at: pos }
            } else {
                Outcome::Parsed { term: Term::Variable(next), len: 1, scope: used(scope, next) }
            }
        } else {
            Outcome::Failed { error: ParseError::UnexpectedCharacter(next), at: pos }
        },
    }
}

/// Reads `@`, a name, `.` and a body in which the name is bound.
pub open spec fn read_function(s: Seq<char>, pos: nat, scope: Map<char, bool>) -> Outcome
    decreases s.len() - pos, 0nat,
{
    if let Some(error) = missing(s, pos, '@') {
        Outcome::Failed { error, at: pos }
    } else if let Some(error) = unnamed(s, pos + 1) {
        Outcome::Failed { error, at: pos + 1 }
    } else if let Some(error) = missing(s, pos + 2, '.') {
        Outcome::Failed { error, at: pos + 2 }
    } else {
        let name = s[pos + 1 as int];
        match read_term(s, pos + 3, bound(scope, name)) {
            Outcome::Parsed { term: body, len, scope: inner } => Outcome::Parsed {
                term: Term::Function(Box::new(Term::Variable(name)), Box::new(body)),
                len: 3 + len,
                scope: released(inner, scope, name),
            },
            failed => failed,
        }
    }
}

/// Reads `(`, a term, one space, a term and `)`.
pub open spec fn read_application(s: Seq<char>, pos: nat, scope: Map<char, bool>) -> Outcome
    decreases s.len() - pos, 0nat,
{
    if let Some(error) = missing(s, pos, '(') {
        Outcome::Failed { error, at: pos }
    } else {
        match read_term(s, pos + 1, scope) {
            Outcome::Parsed { term: left, len: left_len, scope: between } => {
                let gap = pos + 1 + left_len;
                if let Some(error) = missing(s, gap, ' ') {
                    Outcome::Failed { error, at: gap }
                } else {
                    match read_term(s, gap + 1, between) {
                        Outcome::Parsed { term: right, len: right_len, scope: after } => {
                            let close = gap + 1 + right_len;
                            if let Some(error) = missing(s, close, ')') {
                                Outcome::Failed { error, at: close }
                            } else {
                                Outcome::Parsed {
                                    term: Term::Application(Box::new(left), Box::new(right)),
                                    len: left_len + right_len + 3,
                                    scope: after,
                                }
                            }
                        },
                        failed => failed,
                    }
                }
            },
            failed => failed,
        }
    }
}

/// Reads a term at `pos` with no name in scope: the term, or the first fault,
/// and the position at which the reading stopped.
pub open spec fn parsed(s: Seq<char>, pos: nat) -> (Result<Term, ParseError>, nat) {
    match read_term(s, pos, Map::empty()) {
        Outcome::Parsed { term, len, .. } => (Ok(term), pos + len),
        Outcome::Failed { error, at } => (Err(error), at),
    }
}

/// `text` stands in `s` at `pos`.
pub open spec fn occurs_at(s: Seq<char>, pos: nat, text: Seq<char>) -> bool {
    pos + text.len() <= s.len() && s.subrange(pos as int, pos + text.len() as int) == text
}

/// `s` holds at `pos` the notation of `term`, a well-formed affine term.
pub open spec fn notates(s: Seq<char>, pos: nat, term: Term) -> bool {
    term.well_formed() && term.affine() && occurs_at(s, pos, term.source_text())
}

/// No name in scope would be used twice by the free variables of `term`
/// together with the uses the scope has on record.
pub open spec fn admits(scope: Map<char, bool>, term: Term) -> bool {
    forall|name: char| #[trigger]
        scope.contains_key(name) ==> if scope[name] {
            term.free_count(name) == 0
        } else {
            term.free_count(name) <= 1
        }
}

/// The scope with the free variables of `term` on record as used.
pub open spec fn after_reading(scope: Map<char, bool>, term: Term) -> Map<char, bool> {
    Map::new(
        |name: char| scope.contains_key(name),
        |name: char| scope[name] || term.free_count(name) >= 1,
    )
}

/// What is read is what stands there: a term that is read is well formed and
/// affine, its notation is the text that was taken up, the scope had room for
/// its free variables and has them on record afterwards.
pub proof fn lemma_read_sound(s: Seq<char>, pos: nat, scope: Map<char, bool>)
    requires
        read_term(s, pos, scope) is Parsed,
    ensures
        ({
            let term = read_term(s, pos, scope)->term;
            &&& notates(s, pos, term)
            &&& read_term(s, pos, scope)->len == term.source_text().len()
            &&& admits(scope, term)
            &&& read_term(s, pos, scope)->Parsed_scope == after_reading(scope, term)
        }),
    decreases s.len() - pos,
{
    let p = pos as int;
    let next = s[p];
    let term = read_term(s, pos, scope)->term;
    let len = read_term(s, pos, scope)->len as int;
    let after = read_term(s, pos, scope)->Parsed_scope;
    if next == '@' {
        let name = s[p + 1];
        let inside = bound(scope, name);
        lemma_read_sound(s, pos + 3, inside);
        let body = read_term(s, pos + 3, inside)->term;
        let inner = read_term(s, pos + 3, inside)->Parsed_scope;
        assert(inside.contains_key(name));
        assert(body.free_count(name) <= 1);
        assert(s.subrange(p, p + len) =~= seq!['@', name, '.'] + s.subrange(p + 3, p + len));
        assert forall|other: char| #[trigger] scope.contains_key(other) implies if scope[other] {
            term.free_count(other) == 0
        } else {
            term.free_count(other) <= 1
        } by {
            assert(inside.contains_key(other));
        }
        assert(after =~= after_reading(scope, term));
    } else if next == '(' {
        lemma_read_sound(s, pos + 1, scope);
        let left = read_term(s, pos + 1, scope)->term;
        let left_len = read_term(s, pos + 1, scope)->len;
        let between = read_term(s, pos + 1, scope)->Parsed_scope;
        let gap = pos + 1 + left_len;
        lemma_read_sound(s, gap + 1, between);
        let right = read_term(s, gap + 1, between)->term;
        let right_len = read_term(s, gap + 1, between)->len;
        let g = gap as int;
        assert(s.subrange(p, p + len) =~= seq!['('] + s.subrange(p + 1, g) + seq![' ']
            + s.subrange(g + 1, g + 1 + right_len) + seq![')']);
        assert forall|other: char| #[trigger] scope.contains_key(other) implies if scope[other] {
            term.free_count(other) == 0
        } else {
            term.free_count(other) <= 1
        } by {
            assert(between.contains_key(other));
        }
        assert(after =~= after_reading(scope, term));
    } else {
        assert(term.source_text() =~= s.subrange(p, p + 1));
        assert(after =~= after_reading(scope, term));
    }
}

/// What stands there is read: where the scope has room for the free variables
/// of a well-formed affine term whose notation stands at `pos`, that term is
/// read.
pub proof fn lemma_read_complete(s: Seq<char>, pos: nat, scope: Map<char, bool>, term: Term)
    requires
        notates(s, pos, term),
        admits(scope, term),
    ensures
        read_term(s, pos, scope) == (Outcome::Parsed {
            term,
            len: term.source_text().len(),
            scope: after_reading(scope, term),
        }),
    decreases term,
{
    let p = pos as int;
    let text = term.source_text();
    assert forall|i: int| 0 <= i < text.len() implies s[p + i] == text[i] by {
        assert(s.subrange(p, p + text.len())[i] == text[i]);
    }
    match term {
        Term::Variable(name) => {
            assert(s[p + 0] == text[0]);
            assert(scope.contains_key(name) ==> !scope[name]);
            assert(used(scope, name) =~= after_reading(scope, term));
        },
        Term::Function(param, body) => {
            let name = param.letter();
            let inside = bound(scope, name);
            assert(s[p + 0] == text[0]);
            assert(s[p + 1] == text[1]);
            assert(s[p + 2] == text[2]);
            assert(s.subrange(p + 3, p + 3 + body.source_text().len()) =~= body.source_text()) by {
                assert forall|i: int| 0 <= i < body.source_text().len() implies s[p + 3 + i]
                    == body.source_text()[i] by {
                    assert(text[3 + i] == body.source_text()[i]);
                }
            }
            assert forall|other: char| #[trigger] inside.contains_key(other) implies if inside[other] {
                body.free_count(other) == 0
            } else {
                body.free_count(other) <= 1
            } by {
                if other != name {
                    assert(scope.contains_key(other));
                }
            }
            lemma_read_complete(s, pos + 3, inside, *body);
            assert(released(after_reading(inside, *body), scope, name) =~= after_reading(
                scope,
                term,
            ));
            assert(*param == Term::Variable(name));
        },
        Term::Application(left, right) => {
            let left_text = left.source_text();
            let right_text = right.source_text();
            let m = left_text.len() as int;
            let n = right_text.len() as int;
            let gap = pos + 1 + left_text.len();
            let g = gap as int;
            assert(s[p + 0] == text[0]);
            assert(s.subrange(p + 1, g) =~= left_text) by {
                assert forall|i: int| 0 <= i < left_text.len() implies s[p + 1 + i]
                    == left_text[i] by {
                    assert(text[1 + i] == left_text[i]);
                }
            }
            assert(s[g] == ' ') by {
                assert(text[1 + m] == ' ');
            }
            assert(s.subrange(g + 1, g + 1 + n) =~= right_text) by {
                assert forall|i: int| 0 <= i < right_text.len() implies s[g + 1 + i]
                    == right_text[i] by {
                    assert(text[2 + m + i] == right_text[i]);
                }
            }
            assert(s[g + 1 + n] == ')') by {
                assert(text[2 + m + n] == ')');
            }
            assert forall|other: char| #[trigger] scope.contains_key(other) implies if scope[other] {
                left.free_count(other) == 0
            } else {
                left.free_count(other) <= 1
            } by {}
            lemma_read_complete(s, pos + 1, scope, *left);
            let between = after_reading(scope, *left);
            assert forall|other: char| #[trigger] between.contains_key(other) implies if between[other] {
                right.free_count(other) == 0
            } else {
                right.free_count(other) <= 1
            } by {
                assert(scope.contains_key(other));
            }
            lemma_read_complete(s, gap + 1, between, *right);
            assert(after_reading(between, *right) =~= after_reading(scope, term));
        },
    }
}

/// Reading goes forward and stays in the source: it stops behind the term it
/// read, or at its first fault, and neither lies before `pos` or behind the
/// end of the source.
pub proof fn lemma_read_stops_in_source(s: Seq<char>, pos: nat, scope: Map<char, bool>)
    requires
        pos <= s.len(),
    ensures
        match read_term(s, pos, scope) {
            Outcome::Parsed { len, .. } => pos < pos + len <= s.len(),
            Outcome::Failed { at, .. } => pos <= at <= s.len(),
        },
    decreases s.len() - pos,
{
    if read_term(s, pos, scope) is Parsed {
        lemma_read_sound(s, pos, scope);
    } else if pos < s.len() && s[pos as int] == '@' {
        if missing(s, pos + 2, '.') is None && unnamed(s, pos + 1) is None {
            lemma_read_stops_in_source(s, pos + 3, bound(scope, s[pos + 1 as int]));
        }
    } else if pos < s.len() && s[pos as int] == '(' {
        lemma_read_stops_in_source(s, pos + 1, scope);
        if let Outcome::Parsed { len: left_len, scope: between, .. } = read_term(
            s,
            pos + 1,
            scope,
        ) {
            let gap = pos + 1 + left_len;
            if missing(s, gap, ' ') is None {
                lemma_read_stops_in_source(s, gap + 1, between);
            }
        }
    }
}

/// A term that `parsed` gives stands at `pos` in its notation, is well formed
/// and affine, and the reading stopped behind it.
pub proof fn lemma_parsed_sound(s: Seq<char>, pos: nat)
    requires
        parsed(s, pos).0 is Ok,
    ensures
        notates(s, pos, parsed(s, pos).0->Ok_0),
        parsed(s, pos).1 == pos + parsed(s, pos).0->Ok_0.source_text().len(),
{
    lemma_read_sound(s, pos, Map::empty());
}

/// `parsed` stops at or behind `pos`, and in the source where `pos` is.
pub proof fn lemma_parsed_stops_in_source(s: Seq<char>, pos: nat)
    ensures
        pos <= parsed(s, pos).1,
        pos <= s.len() ==> parsed(s, pos).1 <= s.len(),
{
    if pos <= s.len() {
        lemma_read_stops_in_source(s, pos, Map::empty());
    }
}

/// Wherever the notation of a well-formed affine term stands, `parsed` gives
/// that term and stops behind it, whatever follows.
pub proof fn lemma_parsed_complete(s: Seq<char>, pos: nat, term: Term)
    requires
        notates(s, pos, term),
    ensures
        parsed(s, pos) == (Ok::<Term, ParseError>(term), pos + term.source_text().len()),
{
    lemma_read_complete(s, pos, Map::empty(), term);
}

/// Where a source without `@` is the notation of a term, the term is
/// displayed as it is written. (A function is displayed otherwise than it is
/// written: with `λ` for `@`, in parentheses, and with a space behind the dot.)
pub proof fn lemma_rendered_as_written(term: Term)
    requires
        !term.source_text().contains('@'),
    ensures
        term.rendered() == term.source_text(),
    decreases term,
{
    let text = term.source_text();
    match term {
        Term::Variable(_) => {},
        Term::Function(_, _) => {
            assert(text[0] == '@');
        },
        Term::Application(left, right) => {
            let m = left.source_text().len() as int;
            assert forall|i: int| 0 <= i < m implies left.source_text()[i] != '@' by {
                assert(text[1 + i] == left.source_text()[i]);
            }
            assert forall|i: int| 0 <= i < right.source_text().len() implies right.source_text()[i]
                != '@' by {
                assert(text[2 + m + i] == right.source_text()[i]);
            }
            lemma_rendered_as_written(*left);
            lemma_rendered_as_written(*right);
        },
    }
}

/// A source that is read to its end as one term is the notation of that term.
pub proof fn lemma_notation_round_trip(s: Seq<char>, term: Term)
    requires
        parsed(s, 0) == (Ok::<Term, ParseError>(term), s.len()),
    ensures
        term.source_text() == s,
{
    lemma_parsed_sound(s, 0);
    assert(s.subrange(0, s.len() as int) =~= s);
}

/// Parsing a source to its end and displaying the term gives the source back,
/// where the source has no function in it.
pub proof fn lemma_render_round_trip(s: Seq<char>, term: Term)
    requires
        parsed(s, 0) == (Ok::<Term, ParseError>(term), s.len()),
        !s.contains('@'),
    ensures
        term.rendered() == s,
{
    lemma_notation_round_trip(s, term);
    lemma_rendered_as_written(term);
}

/// Writing a well-formed affine term down and parsing what was written gives
/// the term back, and the whole of what was written is read.
pub proof fn lemma_written_is_parsed(term: Term)
    requires
        term.well_formed(),
        term.affine(),
    ensures
        parsed(term.source_text(), 0) == (Ok::<Term, ParseError>(term), term.source_text().len()),
{
    let text = term.source_text();
    assert(text.subrange(0, text.len() as int) =~= text);
    lemma_parsed_complete(text, 0, term);
}

} // verus!
