use affine_lambda_calc::Term;

fn var(name: char) -> Term {
    Term::Variable(name)
}

fn fun(name: char, body: Term) -> Term {
    Term::Function(Box::new(var(name)), Box::new(body))
}

fn app(left: Term, right: Term) -> Term {
    Term::Application(Box::new(left), Box::new(right))
}

#[test]
fn render_variable_is_its_letter() {
    assert_eq!(var('q').render(), "q");
}

#[test]
fn render_function_uses_lambda_and_parentheses() {
    assert_eq!(fun('x', var('x')).render(), "(λx. x)");
}

#[test]
fn render_application_separates_with_one_space() {
    assert_eq!(app(var('f'), var('a')).render(), "(f a)");
}

#[test]
fn render_nested_term() {
    let term = app(fun('x', app(var('x'), var('y'))), fun('z', fun('w', var('z'))));
    assert_eq!(term.render(), "((λx. (x y)) (λz. (λw. z)))");
}

#[test]
fn render_binder_that_is_no_variable_has_no_name() {
    let odd = Term::Function(Box::new(app(var('a'), var('b'))), Box::new(var('c')));
    assert_eq!(odd.render(), "(λ. c)");
}

#[test]
fn clone_gives_an_equal_tree() {
    let term = app(fun('x', var('x')), app(var('a'), fun('y', var('b'))));
    let copy = term.clone();
    assert_eq!(copy, term);
    assert_eq!(copy.render(), term.render());
}

#[test]
fn equality_is_structural() {
    assert_eq!(var('a'), var('a'));
    assert_ne!(var('a'), var('b'));
    assert_ne!(fun('x', var('x')), fun('y', var('x')));
    assert_ne!(fun('x', var('x')), fun('x', var('y')));
    assert_ne!(app(var('a'), var('b')), app(var('b'), var('a')));
    assert_ne!(app(var('a'), var('b')), fun('a', var('b')));
    assert_ne!(var('a'), app(var('a'), var('a')));
    assert_eq!(app(fun('x', var('x')), var('b')), app(fun('x', var('x')), var('b')));
}

#[test]
fn well_formed_terms_have_letters_and_variable_binders() {
    assert!(var('a').is_well_formed());
    assert!(var('z').is_well_formed());
    assert!(fun('x', app(var('x'), var('y'))).is_well_formed());
    assert!(app(fun('x', var('x')), fun('x', app(var('x'), var('x')))).is_well_formed());
}

#[test]
fn other_names_and_other_binders_are_not_well_formed() {
    assert!(!var('A').is_well_formed());
    assert!(!var('`').is_well_formed());
    assert!(!var('{').is_well_formed());
    assert!(!var('λ').is_well_formed());
    assert!(!fun('X', var('a')).is_well_formed());
    assert!(!fun('x', var('1')).is_well_formed());
    assert!(!app(var('a'), var(' ')).is_well_formed());
    assert!(!app(var('@'), var('a')).is_well_formed());
    let odd = Term::Function(Box::new(app(var('a'), var('b'))), Box::new(var('c')));
    assert!(!odd.is_well_formed());
    let nested = Term::Function(Box::new(fun('a', var('a'))), Box::new(var('c')));
    assert!(!nested.is_well_formed());
}
