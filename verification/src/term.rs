//! The term tree and its mathematical vocabulary.

use vstd::prelude::*;

verus! {

/// A term of the lambda calculus.
///
/// The first field of `Function` is the bound variable and the second is the
/// body. The bound variable is always a `Variable`; see [`Term::well_formed`].
#[derive(Debug)]
pub enum Term {
    Function(Box<Term>, Box<Term>),
    Application(Box<Term>, Box<Term>),
    Variable(char),
}

/// The names a variable may have: the lowercase letters `a` to `z`.
pub open spec fn is_letter(c: char) -> bool {
    'a' <= c && c <= 'z'
}

impl Term {
    /// The name of a variable. On a binder's first field this is the bound
    /// name. Any other term has no name, and a space stands for that.
    pub open spec fn letter(self) -> char {
        match self {
            Term::Variable(name) => name,
            _ => ' ',
        }
    }

    /// Every name is a lowercase letter and every binder binds a variable.
    pub open spec fn well_formed(self) -> bool
        decreases self,
    {
        match self {
            Term::Variable(name) => is_letter(name),
            Term::Function(param, body) => {
                &&& *param is Variable
                &&& is_letter(param.letter())
                &&& body.well_formed()
            },
            Term::Application(left, right) => left.well_formed() && right.well_formed(),
        }
    }

    /// The number of nodes of the tree, binders' first fields not counted.
    pub open spec fn size(self) -> nat
        decreases self,
    {
        match self {
            Term::Variable(_) => 1,
            Term::Function(_, body) => 1 + body.size(),
            Term::Application(left, right) => 1 + left.size() + right.size(),
        }
    }

    /// How often `name` occurs free: as a variable that no binder of the same
    /// name encloses.
    pub open spec fn free_count(self, name: char) -> nat
        decreases self,
    {
        match self {
            Term::Variable(found) => if found == name {
                1
            } else {
                0
            },
            Term::Function(param, body) => if param.letter() == name {
                0
            } else {
                body.free_count(name)
            },
            Term::Application(left, right) => left.free_count(name) + right.free_count(name),
        }
    }

    /// How many binders of the term bind `name`.
    pub open spec fn binder_count(self, name: char) -> nat
        decreases self,
    {
        match self {
            Term::Variable(_) => 0,
            Term::Function(param, body) => if param.letter() == name {
                1 + body.binder_count(name)
            } else {
                body.binder_count(name)
            },
            Term::Application(left, right) => left.binder_count(name) + right.binder_count(name),
        }
    }

    /// The bound names are kept apart: no name is bound by two binders, and a
    /// name that is bound occurs nowhere but below its binder.
    pub open spec fn names_apart(self) -> bool {
        forall|name: char| #[trigger]
            self.binder_count(name) >= 1 ==> self.binder_count(name) == 1 && self.free_count(
                name,
            ) == 0
    }

    /// Every binder's name occurs free in that binder's body at most once.
    pub open spec fn affine(self) -> bool
        decreases self,
    {
        match self {
            Term::Variable(_) => true,
            Term::Function(param, body) => body.free_count(param.letter()) <= 1 && body.affine(),
            Term::Application(left, right) => left.affine() && right.affine(),
        }
    }

    /// The term in the notation that the parser reads: `@x.body` for a
    /// function, `(left right)` for an application, the letter for a variable.
    pub open spec fn source_text(self) -> Seq<char>
        decreases self,
    {
        match self {
            Term::Variable(name) => seq![name],
            Term::Function(param, body) => seq!['@', param.letter(), '.'] + body.source_text(),
            Term::Application(left, right) => seq!['('] + left.source_text() + seq![' ']
                + right.source_text() + seq![')'],
        }
    }

    /// The term as it is displayed: `(λx. body)` for a function,
    /// `(left right)` for an application, the letter for a variable. A binder
    /// whose first field is no variable is displayed without a name.
    ///
    /// The parser does not read this form of a function; it reads
    /// [`Term::source_text`]. Where a term has no function the two are one.
    pub open spec fn rendered(self) -> Seq<char>
        decreases self,
    {
        match self {
            Term::Variable(name) => seq![name],
            Term::Function(param, body) => seq!['(', '\u{3bb}'] + (match *param {
                Term::Variable(name) => seq![name],
                _ => Seq::empty(),
            }) + seq!['.', ' '] + body.rendered() + seq![')'],
            Term::Application(left, right) => seq!['('] + left.rendered() + seq![' ']
                + right.rendered() + seq![')'],
        }
    }

    /// Whether the term is well formed.
    pub fn is_well_formed(&self) -> (yes: bool)
        ensures
            yes == self.well_formed(),
        decreases self,
    {
        match self {
            Term::Variable(name) => *name >= 'a' && *name <= 'z',
            Term::Function(param, body) => match &**param {
                Term::Variable(name) => *name >= 'a' && *name <= 'z' && body.is_well_formed(),
                _ => false,
            },
            Term::Application(left, right) => left.is_well_formed() && right.is_well_formed(),
        }
    }

    /// Appends the displayed form of the term to `out`.
    fn render_into(&self, out: &mut String)
        ensures
            final(out)@ == old(out)@ + self.rendered(),
        decreases self,
    {
        match self {
            Term::Variable(name) => {
                push_char(out, *name);
                assert(out@ =~= old(out)@ + self.rendered());
            },
            Term::Function(param, body) => {
                push_char(out, '(');
                push_char(out, '\u{3bb}');
                match &**param {
                    Term::Variable(name) => {
                        push_char(out, *name);
                    },
                    _ => {},
                }
                push_char(out, '.');
                push_char(out, ' ');
                body.render_into(out);
                push_char(out, ')');
                assert(out@ =~= old(out)@ + self.rendered());
            },
            Term::Application(left, right) => {
                push_char(out, '(');
                left.render_into(out);
                push_char(out, ' ');
                right.render_into(out);
                push_char(out, ')');
                assert(out@ =~= old(out)@ + self.rendered());
            },
        }
    }

    /// The displayed form of the term.
    pub fn render(&self) -> (text: String)
        ensures
            text@ == self.rendered(),
    {
        let mut text = String::new();
        self.render_into(&mut text);
        assert(text@ =~= self.rendered());
        text
    }
}

/// `String::push`: the character is appended to the end of the string, and
/// nothing else of the string changes.
#[verifier::external_body]
fn push_char(text: &mut String, c: char)
    ensures
        final(text)@ == old(text)@.push(c),
{
    text.push(c);
}

impl Clone for Term {
    fn clone(&self) -> (copy: Self)
        ensures
            copy == *self,
        decreases self,
    {
        match self {
            Term::Function(param, body) => Term::Function(
                Box::new((&**param).clone()),
                Box::new((&**body).clone()),
            ),
            Term::Application(left, right) => Term::Application(
                Box::new((&**left).clone()),
                Box::new((&**right).clone()),
            ),
            Term::Variable(name) => Term::Variable(*name),
        }
    }
}

impl PartialEq for Term {
    fn eq(&self, other: &Self) -> (equal: bool)
        decreases self,
    {
        match (self, other) {
            (Term::Function(p, b), Term::Function(q, c)) => (&**p).eq(&**q) && (&**b).eq(&**c),
            (Term::Application(l, r), Term::Application(m, s)) => (&**l).eq(&**m) && (&**r).eq(
                &**s,
            ),
            (Term::Variable(x), Term::Variable(y)) => *x == *y,
            _ => false,
        }
    }
}

impl Eq for Term {

}

/// `==` on terms is equality of the trees.
impl vstd::std_specs::cmp::PartialEqSpecImpl for Term {
    open spec fn obeys_eq_spec() -> bool {
        true
    }

    open spec fn eq_spec(&self, other: &Self) -> bool {
        *self == *other
    }
}

} // verus!
