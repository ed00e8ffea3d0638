use tex_models::formula::{
    contains_quantifier, free_variables, is_quantifier, quantifier_binders, substitute_free_variable,
};
use tex_models::{Binop, Cmp, CmpChain, Expr, Finop, Range, RawExpr, SeqOp, TypeExpr, Variable};

fn var(name: &str) -> Expr<()> {
    Expr::new(RawExpr::Variable(Variable::new(name)))
}

fn natural_literal(value: u64) -> Expr<()> {
    Expr::new(RawExpr::NatLiteral(value))
}

fn plus(operands: Vec<Expr<()>>) -> Expr<()> {
    Expr::new(RawExpr::Finop(Finop::Plus, operands))
}

fn compare(left: Expr<()>, op: Cmp, right: Expr<()>) -> Expr<()> {
    Expr::new(RawExpr::CmpChain(CmpChain { start: left, assertions: vec![(op, right)] }))
}

fn names(variables: &[Variable]) -> Vec<String> {
    let mut names: Vec<String> = variables.iter().map(|variable| variable.z3_name()).collect();
    names.sort();
    names
}

#[test]
fn substitution_replaces_free_occurrences_and_flattens_sums() {
    let expression = plus(vec![var("x"), natural_literal(1)]);
    let result = substitute_free_variable(&expression, &Variable::new("x"), &plus(vec![var("a"), var("b")]));
    let RawExpr::Finop(Finop::Plus, operands) = &result.raw else {
        panic!("expected a sum")
    };
    assert_eq!(operands.len(), 3);
    assert_eq!(result.as_latex().to_string(), plus(vec![var("a"), var("b"), natural_literal(1)]).as_latex().to_string());
}

#[test]
fn substitution_leaves_the_scope_of_a_sequence_index_alone() {
    let sum = Expr::new(RawExpr::Seqop(
        SeqOp::Sum,
        Range { index_variable: Variable::new("x"), from: natural_literal(1), to: var("x") },
        var("x"),
    ));
    let result = substitute_free_variable(&sum, &Variable::new("x"), &var("n"));
    let RawExpr::Seqop(_, range, body) = &result.raw else {
        panic!("expected a sequence operation")
    };
    assert!(matches!(&range.to.raw, RawExpr::Variable(v) if v == &Variable::new("n")));
    assert!(matches!(&body.raw, RawExpr::Variable(v) if v == &Variable::new("x")));
}

#[test]
fn comprehension_variables_are_not_free() {
    let domain = TypeExpr::Matrix(var("n"), var("n"));
    let comprehension = Expr::new(RawExpr::SetComprehension {
        variable: Variable::new("X"),
        domain,
        predicate: compare(var("X"), Cmp::Eq, var("A")),
    });
    assert_eq!(names(&free_variables(&vec![comprehension])), vec!["A".to_string(), "n".to_string()]);
}

#[test]
fn quantifier_premises_bind_their_new_variables() {
    let premise = compare(var("x"), Cmp::Gt, natural_literal(0));
    let body = compare(plus(vec![var("x"), var("y")]), Cmp::Gt, natural_literal(0));
    let quantified = Expr::new(RawExpr::Finop(Finop::Forall, vec![premise.clone(), body.clone()]));
    assert!(is_quantifier(&quantified));
    assert!(contains_quantifier(&compare(quantified.clone(), Cmp::Eq, var("z"))));
    assert!(!contains_quantifier(&body));
    assert_eq!(names(&free_variables(&vec![quantified])), vec!["y".to_string()]);
    assert_eq!(names(&quantifier_binders(&vec![premise, body], &Vec::new())), vec!["x".to_string()]);
}

#[test]
fn accessible_variables_are_not_quantifier_binders() {
    let premise = Expr::new(RawExpr::Binop(
        Binop::ElementOf,
        var("x"),
        Expr::new(RawExpr::Type(TypeExpr::Real)),
    ));
    let body = compare(var("x"), Cmp::Gt, var("t"));
    let binders = quantifier_binders(&vec![premise, body], &vec![Variable::new("x")]);
    assert!(binders.is_empty());
}
