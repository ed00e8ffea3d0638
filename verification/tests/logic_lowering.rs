use tex_models::context::VisitContext;
use tex_models::logic_lowering::LogicLowering;
use tex_models::{Expr, Finop, Logic, LogicChain, RawExpr, Variable};

fn variable(name: &str) -> Expr<()> {
    Expr::new(RawExpr::Variable(Variable::new(name)))
}

#[test]
fn lowers_mixed_logic_chain_to_unique_single_implications() {
    let mut expression: Expr<()> = Expr::new(RawExpr::LogicChain(LogicChain {
        start: variable("P"),
        assertions: vec![(Logic::Imp, variable("Q")), (Logic::Iff, variable("R"))],
    }));
    let context = VisitContext { logical_polarity: true, active_ranges: Vec::new() };
    LogicLowering.visit_expr_mut(context, &mut expression);

    assert_eq!(
        expression.as_latex().to_string(),
        r"\left(P \implies Q\right) \land \left(Q \implies R\right) \land \left(R \implies Q\right)"
    );
    let RawExpr::Finop(Finop::And, implications) = &expression.raw else {
        panic!("expected a conjunction")
    };
    assert_eq!(implications.len(), 3);
    assert!(implications.iter().all(|implication| matches!(
        &implication.raw,
        RawExpr::LogicChain(chain) if matches!(chain.assertions.as_slice(), [(Logic::Imp, _)])
    )));
}

#[test]
fn single_implications_are_left_alone() {
    let mut expression: Expr<()> = Expr::new(RawExpr::LogicChain(LogicChain {
        start: variable("P"),
        assertions: vec![(Logic::Imp, variable("Q"))],
    }));
    LogicLowering.visit_expr_mut(VisitContext::positive(), &mut expression);
    assert_eq!(expression.as_latex().to_string(), r"P \implies Q");
}
