use tex_models::context::{Existence, SideCondition, VisitContext};
use tex_models::preprocessing::PreparedExpression;
use tex_models::type_resolver::{MaybeTyped, TypedMetadata};
use tex_models::{Finop, Logic, RawExpr, TypeExpr, Variable};
use tex_models::Expr;

fn boolean(name: &str) -> Expr<TypedMetadata> {
    Expr::with_metadata(TypedMetadata::resolved(TypeExpr::Bool), RawExpr::Variable(Variable::new(name)))
}

fn condition(name: &str) -> SideCondition<TypedMetadata> {
    SideCondition {
        introduced_variable: Variable::new(name),
        display_name: name.to_string(),
        introduced_type: TypeExpr::Real,
        active_ranges: Vec::new(),
        defining_assertions: Vec::new(),
        existence: Existence::Guaranteed,
    }
}

fn prepared(name: &str, conditions: Vec<SideCondition<TypedMetadata>>) -> PreparedExpression {
    PreparedExpression { expression: boolean(name), side_conditions: conditions, context: VisitContext::positive() }
}

fn names(conditions: &[SideCondition<TypedMetadata>]) -> Vec<String> {
    conditions.iter().map(|condition| condition.introduced_variable.z3_name()).collect()
}

#[test]
fn without_givens_the_expression_is_unchanged() {
    let result = prepared("q", vec![condition("w")]).under_givens(&Vec::new());
    assert_eq!(result.expression.as_latex().to_string(), "q");
    assert_eq!(names(&result.side_conditions), ["w"]);
}

#[test]
fn one_given_implies_the_expression() {
    let result = prepared("q", vec![condition("w")]).under_givens(&vec![prepared("p", vec![condition("v")])]);
    let RawExpr::LogicChain(chain) = &result.expression.raw else {
        panic!("the givens imply the expression")
    };
    assert_eq!(chain.start.as_latex().to_string(), "p");
    assert_eq!(chain.assertions.len(), 1);
    assert_eq!(chain.assertions[0].0, Logic::Imp);
    assert_eq!(result.expression.meta.get_type(), Ok(TypeExpr::Bool));
    assert_eq!(names(&result.side_conditions), ["w", "v"]);
}

#[test]
fn several_givens_are_conjoined_and_their_values_merged_once() {
    let givens = vec![prepared("p", vec![condition("v"), condition("w")]), prepared("r", vec![condition("v"), condition("u")])];
    let result = prepared("q", vec![condition("w")]).under_givens(&givens);
    let RawExpr::LogicChain(chain) = &result.expression.raw else {
        panic!("the givens imply the expression")
    };
    assert!(matches!(&chain.start.raw, RawExpr::Finop(Finop::And, operands) if operands.len() == 2));
    assert_eq!(names(&result.side_conditions), ["w", "v", "u"]);
}
