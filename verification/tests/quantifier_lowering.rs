use tex_models::context::VisitContext;
use tex_models::operator_visitors::QuantifierLowering;
use tex_models::type_resolver::{MaybeTyped, TypedMetadata};
use tex_models::{Binop, Cmp, CmpChain, Expr, Finop, Range, RawExpr, TypeExpr, Variable};

fn typed(ty: TypeExpr<()>, raw: RawExpr<TypedMetadata>) -> Expr<TypedMetadata> {
    Expr::with_metadata(TypedMetadata::resolved(ty), raw)
}

fn real_scalar(name: &str) -> Expr<TypedMetadata> {
    typed(TypeExpr::Real, RawExpr::Variable(Variable::new(name)))
}

fn zero() -> Expr<TypedMetadata> {
    typed(TypeExpr::Real, RawExpr::NatLiteral(0))
}

fn positive(name: &str) -> Expr<TypedMetadata> {
    typed(TypeExpr::Bool, RawExpr::CmpChain(CmpChain { start: real_scalar(name), assertions: vec![(Cmp::Gt, zero())] }))
}

fn declared(name: &str) -> Expr<TypedMetadata> {
    typed(
        TypeExpr::Bool,
        RawExpr::Binop(
            Binop::ElementOf,
            real_scalar(name),
            Expr::with_metadata(TypedMetadata::default(), RawExpr::Type(TypeExpr::Real)),
        ),
    )
}

fn quantifier(op: Finop, name: &str) -> Expr<TypedMetadata> {
    typed(TypeExpr::Bool, RawExpr::Finop(op, vec![declared(name), positive(name)]))
}

fn latex(expression: &Expr<TypedMetadata>) -> String {
    expression.as_latex().to_string()
}

#[test]
fn an_existential_read_positively_becomes_its_witness() {
    let mut lowering = QuantifierLowering::new();
    let mut node = quantifier(Finop::Exists, "x");
    lowering.lower_node(&VisitContext::positive(), &mut node);
    let (rewrites, conditions) = lowering.finish().unwrap();
    assert_eq!(rewrites, 1);
    assert_eq!(conditions.len(), 1);
    let witness = &conditions[0];
    assert_eq!(witness.introduced_variable.z3_name(), r"\operatorname{witness}\left(\mathbb{R}; x > 0\right)");
    assert_eq!(witness.introduced_type, TypeExpr::Real);
    assert!(witness.active_ranges.is_empty());
    assert_eq!(latex(&node), format!("{} > 0", witness.introduced_variable.z3_name()));
    assert!(node.meta.get_type().is_err());
}

#[test]
fn a_universal_read_negatively_becomes_its_counterexample() {
    let mut lowering = QuantifierLowering::new();
    let mut node = quantifier(Finop::Forall, "y");
    lowering.lower_node(&VisitContext::negative(), &mut node);
    let (_, conditions) = lowering.finish().unwrap();
    assert_eq!(
        conditions[0].introduced_variable.z3_name(),
        r"\operatorname{counterexample}\left(\mathbb{R}; y > 0\right)"
    );
}

#[test]
fn quantifiers_of_the_other_polarity_are_kept() {
    let mut lowering = QuantifierLowering::new();
    let mut node = quantifier(Finop::Exists, "x");
    let before = latex(&node);
    lowering.lower_node(&VisitContext::negative(), &mut node);
    assert_eq!(latex(&node), before);
    assert_eq!(lowering.finish().unwrap().0, 0);
}

#[test]
fn the_same_witness_is_recorded_once() {
    let mut lowering = QuantifierLowering::new();
    let mut first = quantifier(Finop::Exists, "x");
    let mut second = quantifier(Finop::Exists, "x");
    lowering.lower_node(&VisitContext::positive(), &mut first);
    lowering.lower_node(&VisitContext::positive(), &mut second);
    let (rewrites, conditions) = lowering.finish().unwrap();
    assert_eq!(rewrites, 2);
    assert_eq!(conditions.len(), 1);
}

#[test]
fn witnesses_under_ranges_are_sequences_indexed_by_position() {
    let mut lowering = QuantifierLowering::new();
    let context = VisitContext {
        logical_polarity: true,
        active_ranges: vec![Range {
            index_variable: Variable::new("i"),
            from: Expr::new(RawExpr::NatLiteral(1)),
            to: Expr::new(RawExpr::Variable(Variable::new("n"))),
        }],
    };
    let mut node = quantifier(Finop::Exists, "x");
    lowering.lower_node(&context, &mut node);
    let (_, conditions) = lowering.finish().unwrap();
    let witness = &conditions[0];
    assert!(matches!(witness.introduced_type, TypeExpr::Sequence(_, _)));
    assert_eq!(witness.active_ranges.len(), 1);
    assert!(matches!(&node.raw, RawExpr::CmpChain(chain) if matches!(&chain.start.raw, RawExpr::Binop(Binop::SingleSubscript, _, _))));
}

#[test]
fn malformed_quantifiers_are_reported() {
    let mut lowering = QuantifierLowering::new();
    let mut lonely = typed(TypeExpr::Bool, RawExpr::Finop(Finop::Exists, vec![declared("x")]));
    lowering.lower_node(&VisitContext::positive(), &mut lonely);
    assert!(lowering.finish().is_err());
    let mut lowering = QuantifierLowering::new();
    let mut indirect = typed(TypeExpr::Bool, RawExpr::Finop(Finop::Exists, vec![zero(), positive("x")]));
    lowering.lower_node(&VisitContext::positive(), &mut indirect);
    assert!(lowering.finish().is_err());
}
