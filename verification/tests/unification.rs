use tex_models::unification::Unifier;
use tex_models::{Binop, Expr, Finop, Range, RawExpr, SeqOp, Variable};

fn var(name: &str) -> Expr<()> {
    Expr::new(RawExpr::Variable(Variable::new(name)))
}

fn natural_literal(value: u64) -> Expr<()> {
    Expr::new(RawExpr::NatLiteral(value))
}

fn plus(operands: Vec<Expr<()>>) -> Expr<()> {
    Expr::new(RawExpr::Finop(Finop::Plus, operands))
}

fn times(left: Expr<()>, right: Expr<()>) -> Expr<()> {
    Expr::new(RawExpr::Finop(Finop::Times, vec![left, right]))
}

fn sum(index: &str, to: Expr<()>, body: Expr<()>) -> Expr<()> {
    Expr::new(RawExpr::Seqop(
        SeqOp::Sum,
        Range { index_variable: Variable::new(index), from: natural_literal(1), to },
        body,
    ))
}

fn unifier(metavariables: &[&str]) -> Unifier {
    Unifier {
        metavariables: metavariables.iter().map(|name| Variable::new(name)).collect(),
        assignments: Vec::new(),
        pattern_accessible: Vec::new(),
        candidate_accessible: Vec::new(),
        pattern_bound: Vec::new(),
        candidate_bound: Vec::new(),
    }
}

fn latex(expression: &Expr<()>) -> String {
    expression.as_latex().to_string()
}

#[test]
fn a_metavariable_is_assigned_the_matching_subexpression() {
    let mut unifier = unifier(&["X"]);
    let pattern = plus(vec![var("X"), natural_literal(1)]);
    let candidate = plus(vec![times(var("a"), var("b")), natural_literal(1)]);
    assert!(unifier.expression(&pattern, &candidate));
    assert_eq!(unifier.assignments.len(), 1);
    assert_eq!(unifier.assignments[0].0, Variable::new("X"));
    assert_eq!(latex(&unifier.assignments[0].1), latex(&times(var("a"), var("b"))));
}

#[test]
fn a_repeated_metavariable_must_match_the_same_expression() {
    let pattern = plus(vec![var("X"), var("X")]);
    let mut different = unifier(&["X"]);
    assert!(!different.expression(&pattern, &plus(vec![var("a"), var("b")])));
    let mut same = unifier(&["X"]);
    assert!(same.expression(&pattern, &plus(vec![var("a"), var("a")])));
    assert_eq!(same.assignments.len(), 1);
}

#[test]
fn ordinary_variables_match_only_themselves() {
    let mut unifier = unifier(&["X"]);
    assert!(unifier.expression(&var("y"), &var("y")));
    assert!(!unifier.expression(&var("y"), &var("z")));
    assert!(unifier.assignments.is_empty());
}

#[test]
fn operators_and_literals_must_agree() {
    let mut unifier = unifier(&["X"]);
    let power = Expr::new(RawExpr::Binop(Binop::Power, var("X"), natural_literal(2)));
    let division = Expr::new(RawExpr::Binop(Binop::Div, var("a"), natural_literal(2)));
    assert!(!unifier.expression(&power, &division));
    let other_exponent = Expr::new(RawExpr::Binop(Binop::Power, var("a"), natural_literal(3)));
    assert!(!unifier.expression(&power, &other_exponent));
}

#[test]
fn a_metavariable_cannot_capture_a_bound_candidate_variable() {
    let mut bound = unifier(&["X"]);
    bound.candidate_bound.push(Variable::new("i"));
    assert!(!bound.expression(&var("X"), &var("i")));
    assert!(bound.assignments.is_empty());
}

#[test]
fn sequence_bodies_may_not_leak_their_index() {
    let mut leaking = unifier(&["X"]);
    assert!(!leaking.expression(&sum("i", var("n"), var("X")), &sum("i", var("n"), var("i"))));
    let mut closed = unifier(&["X"]);
    assert!(closed.expression(&sum("i", var("n"), var("X")), &sum("i", var("n"), var("a"))));
    assert_eq!(latex(&closed.assignments[0].1), "a");
    assert!(closed.candidate_bound.is_empty());
    assert!(closed.pattern_bound.is_empty());
}

#[test]
fn a_bound_pattern_index_is_not_a_metavariable() {
    let mut shadowed = unifier(&["i"]);
    assert!(!shadowed.expression(&sum("i", var("n"), var("i")), &sum("i", var("n"), var("a"))));
    assert!(shadowed.assignments.is_empty());
}
