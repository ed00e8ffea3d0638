use tex_models::context::VisitContext;
use tex_models::operator_visitors::{NulVisitor, SetOperatorLowering};
use tex_models::type_resolver::{MaybeTyped, TypedMetadata};
use tex_models::{Annotation, Expr, Finop, Monop, RawExpr, TypeExpr, Variable};

fn dimension(name: &str) -> Expr<()> {
    Expr::new(RawExpr::Variable(Variable::new(name)))
}

fn typed(ty: TypeExpr<()>, raw: RawExpr<TypedMetadata>) -> Expr<TypedMetadata> {
    Expr::with_metadata(TypedMetadata::resolved(ty), raw)
}

#[test]
fn nul_lowers_to_the_right_kernel_universe() {
    let operand = typed(
        TypeExpr::Matrix(dimension("m"), dimension("n")),
        RawExpr::Variable(Variable::new("A")),
    );
    let mut expression = Expr::with_metadata(TypedMetadata::default(), RawExpr::Monop(Monop::Nul, operand));
    let mut visitor = NulVisitor::default();
    visitor.visit_expr_mut(VisitContext::positive(), &mut expression);
    assert_eq!(visitor.finish(), Ok(1));
    let RawExpr::SetComprehension { variable, domain: TypeExpr::Matrix(rows, cols), predicate } = &expression.raw
    else {
        panic!("expected a vector set comprehension")
    };
    assert_eq!(variable, &Variable::new("x"));
    assert_eq!(rows.as_latex().to_string(), "n");
    assert!(matches!(cols.raw, RawExpr::NatLiteral(1)));
    assert_eq!(predicate.as_latex().to_string(), r"A x = \mathbb{0}");
}

#[test]
fn range_lowers_to_a_typed_existential_preimage() {
    let operand = typed(
        TypeExpr::Matrix(dimension("m"), dimension("n")),
        RawExpr::Variable(Variable::new("A")),
    );
    let mut expression = Expr::with_metadata(TypedMetadata::default(), RawExpr::Monop(Monop::Range, operand));
    let mut visitor = SetOperatorLowering::default();
    visitor.visit_expr_mut(VisitContext::positive(), &mut expression);
    assert_eq!(visitor.finish(), Ok(1));
    let RawExpr::SetComprehension { domain: TypeExpr::Matrix(rows, cols), predicate, .. } = &expression.raw else {
        panic!("expected a vector set comprehension")
    };
    assert_eq!(rows.as_latex().to_string(), "m");
    assert!(matches!(cols.raw, RawExpr::NatLiteral(1)));
    assert_eq!(predicate.meta.get_type(), Ok(TypeExpr::Bool));
    assert!(matches!(predicate.raw, RawExpr::Finop(Finop::Exists, _)));
    let rendered = predicate.as_latex().to_string();
    assert!(rendered.contains(r"\exists w_{\text{preimage of A}}"), "{rendered}");
    assert!(rendered.contains("A"), "{rendered}");
}

#[test]
fn negative_range_lowers_to_left_null_orthogonality() {
    let operand = typed(
        TypeExpr::Matrix(dimension("m"), dimension("n")),
        RawExpr::Variable(Variable::new("A")),
    );
    let mut expression = Expr::with_metadata(TypedMetadata::default(), RawExpr::Monop(Monop::Range, operand));
    let mut visitor = SetOperatorLowering::default();
    visitor.visit_expr_mut(VisitContext::negative(), &mut expression);
    assert_eq!(visitor.finish(), Ok(1));
    let RawExpr::SetComprehension { predicate, .. } = &expression.raw else {
        panic!("expected a set comprehension")
    };
    assert!(matches!(predicate.raw, RawExpr::Finop(Finop::Forall, _)));
    let rendered = predicate.as_latex().to_string();
    assert!(rendered.contains(r"A^\top"), "{rendered}");
    assert!(rendered.contains(r"\mathbb{0}"), "{rendered}");
}

#[test]
fn nul_chooses_a_capture_avoiding_binder() {
    let operand = typed(
        TypeExpr::Matrix(dimension("m"), dimension("n")),
        RawExpr::Variable(Variable::new("x")),
    );
    let mut expression = Expr::with_metadata(TypedMetadata::default(), RawExpr::Monop(Monop::Nul, operand));
    let mut visitor = NulVisitor::default();
    visitor.visit_expr_mut(VisitContext::positive(), &mut expression);
    assert_eq!(visitor.finish(), Ok(1));
    let RawExpr::SetComprehension { variable, .. } = &expression.raw else {
        panic!("expected a set comprehension")
    };
    assert_eq!(variable.annotations, vec![Annotation::Prime]);
}

#[test]
fn nul_rejects_nonmatrix_and_untyped_operands() {
    for op in [Monop::Nul, Monop::Range] {
        for operand in [
            typed(TypeExpr::Real, RawExpr::Variable(Variable::new("a"))),
            typed(TypeExpr::SetOf(Box::new(TypeExpr::Real)), RawExpr::Variable(Variable::new("S"))),
            typed(
                TypeExpr::Sequence(Expr::new(RawExpr::Type(TypeExpr::Real)), dimension("n")),
                RawExpr::Variable(Variable::new("s")),
            ),
            Expr::with_metadata(TypedMetadata::default(), RawExpr::Variable(Variable::new("A"))),
        ] {
            let mut expression = Expr::with_metadata(TypedMetadata::default(), RawExpr::Monop(op, operand));
            let mut visitor = SetOperatorLowering::default();
            visitor.visit_expr_mut(VisitContext::positive(), &mut expression);
            assert!(visitor.finish().is_err());
        }
    }
}
