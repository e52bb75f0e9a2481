//! A recursive-descent parser that reads characters directly and enforces the
//! affine discipline while it reads.
//!
//! function: `@`, a variable, `.`, a term.
//! application: `(`, a term, one space, a term, `)`.
//! variable: one letter.
//! Within a function's body its bound variable is used at most once; it need
//! not be used at all.

use crate::grammar::{
    bound, lemma_parsed_complete, lemma_parsed_sound, lemma_parsed_stops_in_source, missing,
    notates, parsed, peeked, read_application, read_function, read_term, spent, unnamed, used,
    Outcome,
};
use crate::term::{is_letter, Term};
use std::collections::HashMap;
use vstd::prelude::*;
use vstd::std_specs::hash::group_hash_axioms;

verus! {

broadcast use group_hash_axioms;

/// Why a source was rejected.
#[derive(Debug, Clone, Copy, PartialEq, Eq, Structural)]
pub enum ParseError {
    /// The character starts none of the three kinds of term.
    UnexpectedCharacter(char),
    /// The first character was required and the second was found.
    ExpectedCharacter(char, char),
    /// The character stands where a variable's name is required and is no
    /// letter from `a` to `z`.
    InvalidVariableName(char),
    /// The variable is used a second time within the body that binds it.
    AffineViolation(char),
    /// A character was required and the source had ended.
    UnexpectedEndOfInput,
}

/// A source and a cursor into it.
pub struct Parser {
    current: usize,
    source: Vec<char>,
    /// The names bound at the cursor, by code point, each with whether it has
    /// been used.
    used_variables: HashMap<u32, bool>,
}

/// The names that a table keyed by code point holds.
spec fn names(table: Map<u32, bool>) -> Map<char, bool> {
    Map::new(|name: char| table.contains_key(name as u32), |name: char| table[name as u32])
}

/// Two names with one code point are one name.
proof fn lemma_code_point_names(a: char, b: char)
    ensures
        a as u32 == b as u32 ==> a == b,
{
}

/// An entry made under a name's code point is an entry for that name alone.
proof fn lemma_names_insert(table: Map<u32, bool>, name: char, seen: bool)
    ensures
        names(table.insert(name as u32, seen)) == names(table).insert(name, seen),
{
    let entered = names(table.insert(name as u32, seen));
    let expected = names(table).insert(name, seen);
    assert forall|other: char| entered.contains_key(other) == expected.contains_key(other) by {
        lemma_code_point_names(other, name);
    }
    assert forall|other: char| entered.contains_key(other) implies entered[other]
        == expected[other] by {
        lemma_code_point_names(other, name);
    }
    assert(entered =~= expected);
}

/// An entry removed under a name's code point is that name's entry alone.
proof fn lemma_names_remove(table: Map<u32, bool>, name: char)
    ensures
        names(table.remove(name as u32)) == names(table).remove(name),
{
    let removed = names(table.remove(name as u32));
    let expected = names(table).remove(name);
    assert forall|other: char| removed.contains_key(other) == expected.contains_key(other) by {
        lemma_code_point_names(other, name);
    }
    assert(removed =~= expected);
}

impl Parser {
    /// The characters of the source.
    pub closed spec fn input(&self) -> Seq<char> {
        self.source@
    }

    /// How many characters of the source have been read.
    pub closed spec fn position(&self) -> nat {
        self.current as nat
    }

    /// The names in scope at the cursor.
    spec fn scope(&self) -> Map<char, bool> {
        names(self.used_variables@)
    }

    /// `result` and the state `self` are how reading a term from the state
    /// `start` ends according to `outcome`.
    spec fn ends(
        &self,
        start: &Parser,
        result: Result<Term, ParseError>,
        outcome: Outcome,
    ) -> bool {
        &&& self.input() == start.input()
        &&& match outcome {
            Outcome::Parsed { term, len, scope } => {
                &&& result == Ok::<Term, ParseError>(term)
                &&& self.position() == start.position() + len
                &&& self.scope() == scope
            },
            Outcome::Failed { error, at } => {
                &&& result == Err::<Term, ParseError>(error)
                &&& self.position() == at
            },
        }
    }

    /// A parser at the start of `source`.
    pub fn new(source: Vec<char>) -> (parser: Self)
        ensures
            parser.input() == source@,
            parser.position() == 0,
    {
        Parser { source, current: 0, used_variables: HashMap::new() }
    }

    /// Reads one term at the cursor, with no name in scope.
    ///
    /// On success the cursor stands behind the term; what follows the term is
    /// not looked at. On failure it stands at the character that was at
    /// fault, or at the end where the source ended too early.
    pub fn parse(&mut self) -> (result: Result<Term, ParseError>)
        ensures
            final(self).input() == old(self).input(),
            (result, final(self).position()) == parsed(old(self).input(), old(self).position()),
            old(self).position() <= final(self).position(),
            old(self).position() <= old(self).input().len() ==> final(self).position() <= old(
                self,
            ).input().len(),
            match result {
                Ok(term) => {
                    &&& notates(old(self).input(), old(self).position(), term)
                    &&& final(self).position() == old(self).position() + term.source_text().len()
                },
                Err(_) => forall|term: Term|
                    !notates(old(self).input(), old(self).position(), term),
            },
    {
        self.used_variables.clear();
        assert(self.scope() =~= Map::empty());
        proof {
            let s = self.input();
            let pos = self.position();
            lemma_parsed_stops_in_source(s, pos);
            if parsed(s, pos).0 is Ok {
                lemma_parsed_sound(s, pos);
            } else {
                assert forall|term: Term| !notates(s, pos, term) by {
                    if notates(s, pos, term) {
                        lemma_parsed_complete(s, pos, term);
                    }
                }
            }
        }
        self.parse_term()
    }

    fn parse_term(&mut self) -> (result: Result<Term, ParseError>)
        ensures
            final(self).ends(
                old(self),
                result,
                read_term(old(self).input(), old(self).position(), old(self).scope()),
            ),
        decreases old(self).input().len() - old(self).position(), 1nat,
    {
        let next = self.peek()?;
        if next == '@' {
            self.parse_function()
        } else if next == '(' {
            self.parse_application()
        } else if self.is_variable(next) {
            self.mark_used(next)?;
            self.parse_variable()
        } else {
            Err(ParseError::UnexpectedCharacter(next))
        }
    }

    fn parse_function(&mut self) -> (result: Result<Term, ParseError>)
        ensures
            final(self).ends(
                old(self),
                result,
                read_function(old(self).input(), old(self).position(), old(self).scope()),
            ),
        decreases old(self).input().len() - old(self).position(), 0nat,
    {
        self.consume('@')?;
        let name = self.peek()?;
        let variable = self.parse_variable()?;
        self.consume('.')?;
        let outer = self.bind(name);
        let body = self.parse_term()?;
        self.release(name, outer);
        Ok(Term::Function(Box::new(variable), Box::new(body)))
    }

    /// Reads a variable's name at the cursor.
    fn parse_variable(&mut self) -> (result: Result<Term, ParseError>)
        ensures
            final(self).input() == old(self).input(),
            final(self).scope() == old(self).scope(),
            match unnamed(old(self).input(), old(self).position()) {
                Some(error) => {
                    &&& result == Err::<Term, ParseError>(error)
                    &&& final(self).position() == old(self).position()
                },
                None => {
                    &&& result == Ok::<Term, ParseError>(
                        Term::Variable(old(self).input()[old(self).position() as int]),
                    )
                    &&& final(self).position() == old(self).position() + 1
                },
            },
    {
        let variable_name = self.peek()?;
        if !self.is_variable(variable_name) {
            return Err(ParseError::InvalidVariableName(variable_name));
        }
        self.consume(variable_name)?;
        Ok(Term::Variable(variable_name))
    }

    fn parse_application(&mut self) -> (result: Result<Term, ParseError>)
        ensures
            final(self).ends(
                old(self),
                result,
                read_application(old(self).input(), old(self).position(), old(self).scope()),
            ),
        decreases old(self).input().len() - old(self).position(), 0nat,
    {
        self.consume('(')?;
        let first_term = self.parse_term()?;
        self.consume(' ')?;
        let second_term = self.parse_term()?;
        self.consume(')')?;
        Ok(Term::Application(Box::new(first_term), Box::new(second_term)))
    }

    /// Records a use of `name`, unless the body that binds it has used it.
    fn mark_used(&mut self, name: char) -> (result: Result<(), ParseError>)
        ensures
            final(self).input() == old(self).input(),
            final(self).position() == old(self).position(),
            if spent(old(self).scope(), name) {
                result == Err::<(), ParseError>(ParseError::AffineViolation(name))
            } else {
                result == Ok::<(), ParseError>(()) && final(self).scope() == used(
                    old(self).scope(),
                    name,
                )
            },
    {
        let key = name as u32;
        match self.used_variables.get(&key) {
            Some(seen) => {
                if *seen {
                    return Err(ParseError::AffineViolation(name));
                }
                self.used_variables.insert(key, true);
                proof {
                    lemma_names_insert(old(self).used_variables@, name, true);
                }
            },
            None => {},
        }
        Ok(())
    }

    /// Brings `name` into scope as bound and unused, and returns what the
    /// scope held for it.
    fn bind(&mut self, name: char) -> (outer: Option<bool>)
        ensures
            final(self).input() == old(self).input(),
            final(self).position() == old(self).position(),
            final(self).scope() == bound(old(self).scope(), name),
            outer is Some == old(self).scope().contains_key(name),
            outer matches Some(seen) ==> seen == old(self).scope()[name],
    {
        let key = name as u32;
        let outer = self.used_variables.insert(key, false);
        proof {
            lemma_names_insert(old(self).used_variables@, name, false);
        }
        outer
    }

    /// Takes `name` out of the scope of a body and puts back what `bind`
    /// returned for it.
    fn release(&mut self, name: char, outer: Option<bool>)
        ensures
            final(self).input() == old(self).input(),
            final(self).position() == old(self).position(),
            final(self).scope() == (match outer {
                Some(seen) => old(self).scope().insert(name, seen),
                None => old(self).scope().remove(name),
            }),
    {
        let key = name as u32;
        match outer {
            Some(seen) => {
                self.used_variables.insert(key, seen);
                proof {
                    lemma_names_insert(old(self).used_variables@, name, seen);
                }
            },
            None => {
                self.used_variables.remove(&key);
                proof {
                    lemma_names_remove(old(self).used_variables@, name);
                }
            },
        }
    }

    /// Requires `expected` at the cursor and steps over it.
    fn consume(&mut self, expected: char) -> (result: Result<char, ParseError>)
        ensures
            final(self).input() == old(self).input(),
            final(self).scope() == old(self).scope(),
            match missing(old(self).input(), old(self).position(), expected) {
                Some(error) => {
                    &&& result == Err::<char, ParseError>(error)
                    &&& final(self).position() == old(self).position()
                },
                None => {
                    &&& result == Ok::<char, ParseError>(expected)
                    &&& final(self).position() == old(self).position() + 1
                },
            },
    {
        let found = self.peek()?;
        if found == expected {
            self.advance()?;
            Ok(expected)
        } else {
            Err(ParseError::ExpectedCharacter(expected, found))
        }
    }

    /// Steps over the character at the cursor and returns it.
    fn advance(&mut self) -> (result: Result<char, ParseError>)
        ensures
            final(self).input() == old(self).input(),
            final(self).scope() == old(self).scope(),
            result == peeked(old(self).input(), old(self).position()),
            final(self).position() == if result is Ok {
                old(self).position() + 1
            } else {
                old(self).position()
            },
    {
        if self.is_at_end() {
            return Err(ParseError::UnexpectedEndOfInput);
        }
        assert(self.source.len() == self.input().len());
        self.current += 1;
        Ok(self.previous())
    }

    /// The character before the cursor.
    fn previous(&self) -> (c: char)
        requires
            self.position() > 0,
            self.position() <= self.input().len(),
        ensures
            c == self.input()[self.position() - 1],
    {
        self.source[self.current - 1]
    }

    /// The character at the cursor.
    pub fn peek(&self) -> (result: Result<char, ParseError>)
        ensures
            result == peeked(self.input(), self.position()),
    {
        if self.is_at_end() {
            return Err(ParseError::UnexpectedEndOfInput);
        }
        Ok(self.source[self.current])
    }

    /// The character behind the one at the cursor.
    pub fn peek_twice(&self) -> (result: Result<char, ParseError>)
        ensures
            result == peeked(self.input(), self.position() + 1),
    {
        if self.is_at_end() {
            return Err(ParseError::UnexpectedEndOfInput);
        }
        assert(self.source.len() == self.input().len());
        if self.current + 1 >= self.source.len() {
            return Err(ParseError::UnexpectedEndOfInput);
        }
        Ok(self.source[self.current + 1])
    }

    /// Whether the whole source has been read.
    pub fn is_at_end(&self) -> (at_end: bool)
        ensures
            at_end == (self.position() >= self.input().len()),
    {
        self.current >= self.source.len()
    }

    fn is_variable(&self, c: char) -> (yes: bool)
        ensures
            yes == is_letter(c),
    {
        c >= 'a' && c <= 'z'
    }
}

} // verus!


