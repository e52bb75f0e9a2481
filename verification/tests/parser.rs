use affine_lambda_calc::{ParseError, Parser, Term};

fn var(name: char) -> Term {
    Term::Variable(name)
}

fn fun(name: char, body: Term) -> Term {
    Term::Function(Box::new(var(name)), Box::new(body))
}

fn app(left: Term, right: Term) -> Term {
    Term::Application(Box::new(left), Box::new(right))
}

fn parser(source: &str) -> Parser {
    Parser::new(source.chars().collect())
}

fn parse(source: &str) -> Result<Term, ParseError> {
    parser(source).parse()
}

#[test]
fn affine_acceptance() {
    assert_eq!(parse("(@x.x @y.y)"), Ok(app(fun('x', var('x')), fun('y', var('y')))));
}

#[test]
fn affine_rejection() {
    assert_eq!(parse("@x.(x x)"), Err(ParseError::AffineViolation('x')));
}

#[test]
fn vacuous_affine_use_is_legal() {
    assert_eq!(parse("@x.y"), Ok(fun('x', var('y'))));
}

#[test]
fn round_trip_without_functions() {
    for source in ["x", "(x y)", "((a b) (c (d e)))", "(x x)"] {
        let mut p = parser(source);
        let term = p.parse().unwrap();
        assert!(p.is_at_end());
        assert_eq!(term.render(), source);
    }
}

#[test]
fn function_is_displayed_otherwise_than_written() {
    assert_eq!(parse("@x.x").unwrap().render(), "(λx. x)");
    assert_eq!(parse("(@x.x y)").unwrap().render(), "((λx. x) y)");
}

#[test]
fn single_variable() {
    assert_eq!(parse("a"), Ok(var('a')));
    assert_eq!(parse("z"), Ok(var('z')));
}

#[test]
fn nested_functions_and_applications() {
    assert_eq!(
        parse("@f.@x.(f (x y))"),
        Ok(fun('f', fun('x', app(var('f'), app(var('x'), var('y'))))))
    );
}

#[test]
fn free_variable_may_occur_any_number_of_times() {
    assert_eq!(parse("(x (x x))"), Ok(app(var('x'), app(var('x'), var('x')))));
    assert_eq!(parse("@y.(x (x y))"), Ok(fun('y', app(var('x'), app(var('x'), var('y'))))));
}

#[test]
fn variable_on_both_sides_of_an_application_outside_its_binder() {
    assert_eq!(parse("(@x.x x)"), Ok(app(fun('x', var('x')), var('x'))));
}

#[test]
fn sibling_binders_may_share_a_name() {
    assert_eq!(parse("(@x.x @x.x)"), Ok(app(fun('x', var('x')), fun('x', var('x')))));
}

#[test]
fn use_after_a_sibling_binder_of_the_same_name_has_ended() {
    assert_eq!(parse("@x.(@x.x x)"), Ok(fun('x', app(fun('x', var('x')), var('x')))));
}

#[test]
fn inner_binder_of_the_same_name_has_its_own_count() {
    assert_eq!(parse("@x.@x.x"), Ok(fun('x', fun('x', var('x')))));
    assert_eq!(parse("@x.(x @x.x)"), Ok(fun('x', app(var('x'), fun('x', var('x'))))));
}

#[test]
fn second_use_inside_an_inner_binder_is_rejected() {
    assert_eq!(parse("@x.@x.(x x)"), Err(ParseError::AffineViolation('x')));
    assert_eq!(parse("@x.(x @y.x)"), Err(ParseError::AffineViolation('x')));
    assert_eq!(parse("@x.@y.(y (x (z x)))"), Err(ParseError::AffineViolation('x')));
}

#[test]
fn outer_use_is_remembered_across_an_inner_binder_of_the_same_name() {
    assert_eq!(parse("@x.((x @x.x) x)"), Err(ParseError::AffineViolation('x')));
}

#[test]
fn affine_violation_comes_before_a_later_fault() {
    assert_eq!(parse("@x.(x x"), Err(ParseError::AffineViolation('x')));
    assert_eq!(parse("@x.(x x!"), Err(ParseError::AffineViolation('x')));
}

#[test]
fn unexpected_character() {
    assert_eq!(parse("!"), Err(ParseError::UnexpectedCharacter('!')));
    assert_eq!(parse("A"), Err(ParseError::UnexpectedCharacter('A')));
    assert_eq!(parse(" x"), Err(ParseError::UnexpectedCharacter(' ')));
    assert_eq!(parse("(x )"), Err(ParseError::UnexpectedCharacter(')')));
    assert_eq!(parse("@x..x"), Err(ParseError::UnexpectedCharacter('.')));
    assert_eq!(parse("λx.x"), Err(ParseError::UnexpectedCharacter('λ')));
}

#[test]
fn expected_character() {
    assert_eq!(parse("(x)"), Err(ParseError::ExpectedCharacter(' ', ')')));
    assert_eq!(parse("(xy)"), Err(ParseError::ExpectedCharacter(' ', 'y')));
    assert_eq!(parse("(x y z)"), Err(ParseError::ExpectedCharacter(')', ' ')));
    assert_eq!(parse("(x  y)"), Err(ParseError::UnexpectedCharacter(' ')));
    assert_eq!(parse("@x x"), Err(ParseError::ExpectedCharacter('.', ' ')));
    assert_eq!(parse("@xy.x"), Err(ParseError::ExpectedCharacter('.', 'y')));
}

#[test]
fn invalid_variable_name() {
    assert_eq!(parse("@1.x"), Err(ParseError::InvalidVariableName('1')));
    assert_eq!(parse("@X.x"), Err(ParseError::InvalidVariableName('X')));
    assert_eq!(parse("@@x.x"), Err(ParseError::InvalidVariableName('@')));
    assert_eq!(parse("@.x"), Err(ParseError::InvalidVariableName('.')));
}

#[test]
fn unexpected_end_of_input() {
    assert_eq!(parse(""), Err(ParseError::UnexpectedEndOfInput));
    assert_eq!(parse("@"), Err(ParseError::UnexpectedEndOfInput));
    assert_eq!(parse("@x"), Err(ParseError::UnexpectedEndOfInput));
    assert_eq!(parse("@x."), Err(ParseError::UnexpectedEndOfInput));
    assert_eq!(parse("("), Err(ParseError::UnexpectedEndOfInput));
    assert_eq!(parse("(x"), Err(ParseError::UnexpectedEndOfInput));
    assert_eq!(parse("(x "), Err(ParseError::UnexpectedEndOfInput));
    assert_eq!(parse("(x y"), Err(ParseError::UnexpectedEndOfInput));
}

#[test]
fn what_follows_the_term_is_left_unread() {
    let mut p = parser("x)");
    assert_eq!(p.parse(), Ok(var('x')));
    assert!(!p.is_at_end());
    assert_eq!(p.peek(), Ok(')'));

    let mut q = parser("(a b)(c d)");
    assert_eq!(q.parse(), Ok(app(var('a'), var('b'))));
    assert_eq!(q.peek(), Ok('('));
    assert_eq!(q.parse(), Ok(app(var('c'), var('d'))));
    assert!(q.is_at_end());
    assert_eq!(q.parse(), Err(ParseError::UnexpectedEndOfInput));
}

#[test]
fn cursor_rests_at_the_fault() {
    let mut p = parser("(ab)");
    assert_eq!(p.parse(), Err(ParseError::ExpectedCharacter(' ', 'b')));
    assert_eq!(p.peek(), Ok('b'));
    assert_eq!(p.peek_twice(), Ok(')'));

    let mut q = parser("@x.(x x)");
    assert_eq!(q.parse(), Err(ParseError::AffineViolation('x')));
    assert_eq!(q.peek(), Ok('x'));
    assert_eq!(q.peek_twice(), Ok(')'));

    let mut r = parser("(x y");
    assert_eq!(r.parse(), Err(ParseError::UnexpectedEndOfInput));
    assert!(r.is_at_end());
}

#[test]
fn a_failed_parse_leaves_no_name_in_scope() {
    let mut p = parser("@x.(x!x");
    assert_eq!(p.parse(), Err(ParseError::ExpectedCharacter(' ', '!')));
    assert_eq!(p.peek(), Ok('!'));
    assert_eq!(p.parse(), Err(ParseError::UnexpectedCharacter('!')));

    let mut q = parser("@x.(x x)x");
    assert_eq!(q.parse(), Err(ParseError::AffineViolation('x')));
    assert_eq!(q.parse(), Ok(var('x')));
    assert_eq!(q.peek(), Ok(')'));
}

#[test]
fn lookahead_on_a_fresh_parser() {
    let p = parser("ab");
    assert!(!p.is_at_end());
    assert_eq!(p.peek(), Ok('a'));
    assert_eq!(p.peek_twice(), Ok('b'));

    let q = parser("a");
    assert_eq!(q.peek(), Ok('a'));
    assert_eq!(q.peek_twice(), Err(ParseError::UnexpectedEndOfInput));

    let r = parser("");
    assert!(r.is_at_end());
    assert_eq!(r.peek(), Err(ParseError::UnexpectedEndOfInput));
    assert_eq!(r.peek_twice(), Err(ParseError::UnexpectedEndOfInput));
}

#[test]
fn every_letter_is_a_variable_and_its_neighbours_are_not() {
    for c in 'a'..='z' {
        assert_eq!(parse(&c.to_string()), Ok(var(c)));
    }
    assert_eq!(parse("`"), Err(ParseError::UnexpectedCharacter('`')));
    assert_eq!(parse("{"), Err(ParseError::UnexpectedCharacter('{')));
}
