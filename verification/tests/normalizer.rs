use affine_lambda_calc::{normalize, normalize_within, substitute, Parser, Term};

fn var(name: char) -> Term {
    Term::Variable(name)
}

fn fun(name: char, body: Term) -> Term {
    Term::Function(Box::new(var(name)), Box::new(body))
}

fn app(left: Term, right: Term) -> Term {
    Term::Application(Box::new(left), Box::new(right))
}

fn parse(source: &str) -> Term {
    Parser::new(source.chars().collect()).parse().unwrap()
}

#[test]
fn beta_reduction_literal_case() {
    assert_eq!(normalize(parse("(@x.x y)")), var('y'));
}

#[test]
fn nested_redex_exposure() {
    assert_eq!(normalize(parse("((@x.x @y.y) z)")), var('z'));
    assert_eq!(normalize(parse("(((@x.x @y.y) @w.w) z)")), var('z'));
}

#[test]
fn stuck_application_stays_stuck() {
    assert_eq!(normalize(app(var('f'), var('a'))), app(var('f'), var('a')));
}

#[test]
fn stuck_application_has_its_argument_reduced() {
    assert_eq!(normalize(parse("(f (@x.x a))")), app(var('f'), var('a')));
}

#[test]
fn normalize_is_idempotent() {
    for source in ["(@x.x y)", "((@x.x @y.y) z)", "@x.(@y.y x)", "(f (@x.x a))", "(@x.@y.(y x) y)"] {
        let once = normalize(parse(source));
        let twice = normalize(once.clone());
        assert_eq!(twice, once);
    }
}

#[test]
fn variable_is_normal() {
    assert_eq!(normalize(var('v')), var('v'));
}

#[test]
fn function_body_is_reduced_under_the_binder() {
    assert_eq!(normalize(parse("@x.(@y.y x)")), fun('x', var('x')));
}

#[test]
fn unused_argument_is_dropped() {
    assert_eq!(normalize(parse("(@x.y z)")), var('y'));
}

#[test]
fn argument_is_substituted_unreduced_and_reduced_afterwards() {
    assert_eq!(normalize(parse("(@x.(f x) (@y.y a))")), app(var('f'), var('a')));
}

#[test]
fn reduction_below_a_stuck_head() {
    assert_eq!(
        normalize(parse("((f (@x.x a)) (@y.y b))")),
        app(app(var('f'), var('a')), var('b'))
    );
}

#[test]
fn bound_variable_is_not_renamed_and_captures() {
    assert_eq!(normalize(parse("(@x.@y.(y x) y)")), fun('y', app(var('y'), var('y'))));
}

#[test]
fn substitute_replaces_a_free_variable() {
    assert_eq!(substitute(var('x'), 'x', var('a')), var('a'));
    assert_eq!(substitute(var('y'), 'x', var('a')), var('y'));
}

#[test]
fn substitute_goes_into_both_sides_of_an_application() {
    assert_eq!(
        substitute(app(var('x'), app(var('y'), var('x'))), 'x', fun('z', var('z'))),
        app(fun('z', var('z')), app(var('y'), fun('z', var('z'))))
    );
}

#[test]
fn substitute_stops_at_a_binder_of_the_same_name() {
    assert_eq!(substitute(fun('x', var('x')), 'x', var('a')), fun('x', var('x')));
    assert_eq!(
        substitute(app(var('x'), fun('x', var('x'))), 'x', var('a')),
        app(var('a'), fun('x', var('x')))
    );
}

#[test]
fn substitute_goes_below_a_binder_of_another_name() {
    assert_eq!(
        substitute(fun('y', app(var('x'), var('y'))), 'x', var('a')),
        fun('y', app(var('a'), var('y')))
    );
}

#[test]
fn substitute_does_not_avoid_capture() {
    assert_eq!(substitute(fun('y', var('x')), 'x', var('y')), fun('y', var('y')));
}

#[test]
fn normalize_within_a_bound_that_suffices() {
    assert_eq!(normalize_within(parse("(@x.x y)"), 1), Some(var('y')));
    assert_eq!(normalize_within(parse("(@x.x y)"), 7), Some(var('y')));
    assert_eq!(normalize_within(parse("((@x.x @y.y) z)"), 3), Some(var('z')));
    assert_eq!(normalize_within(app(var('f'), var('a')), 0), Some(app(var('f'), var('a'))));
    assert_eq!(normalize_within(parse("@x.(f x)"), 0), Some(fun('x', app(var('f'), var('x')))));
}

#[test]
fn normalize_within_a_bound_that_is_too_small() {
    assert_eq!(normalize_within(parse("(@x.x y)"), 0), None);
    assert_eq!(normalize_within(parse("((@x.x @y.y) z)"), 1), None);
    assert_eq!(normalize_within(parse("((@x.x @y.y) z)"), 2), Some(var('z')));
    assert_eq!(normalize_within(parse("@w.(@x.x (@y.y z))"), 1), None);
    assert_eq!(normalize_within(parse("@w.(@x.x (@y.y z))"), 2), Some(fun('w', var('z'))));
}

#[test]
fn normalize_within_agrees_with_normalize() {
    for source in ["x", "(@x.x y)", "((@x.x @y.y) z)", "@x.(@y.y x)", "(@x.(f x) (@y.y a))"] {
        assert_eq!(normalize_within(parse(source), 64), Some(normalize(parse(source))));
    }
}

#[test]
fn reduction_that_does_not_end_is_given_up() {
    let endless = parse("((@x.@y.(y x) y) (@x.@y.(y x) y))");
    assert_eq!(normalize_within(endless, 200), None);
}

#[test]
fn normal_form_of_an_affine_term_is_no_larger() {
    let source = "((@f.@x.(f x) @y.y) (@z.z w))";
    let normalized = normalize(parse(source));
    assert_eq!(normalized, var('w'));
}
