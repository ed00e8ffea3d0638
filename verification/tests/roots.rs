use tex_models::context::{Existence, VisitContext};
use tex_models::operator_visitors::{Norm2SquaredVisitor, Norm2Visitor, SquareRootVisitor};
use tex_models::type_resolver::{MaybeTyped, TypeError, TypedMetadata};
use tex_models::{Binop, Cmp, Expr, Finop, Monop, Range, RawExpr, SeqOp, TypeExpr, Variable};

fn typed(ty: TypeExpr<()>, raw: RawExpr<TypedMetadata>) -> Expr<TypedMetadata> {
    Expr::with_metadata(TypedMetadata::resolved(ty), raw)
}

fn untyped(raw: RawExpr<TypedMetadata>) -> Expr<TypedMetadata> {
    Expr::with_metadata(TypedMetadata::default(), raw)
}

fn column(name: &str) -> Expr<TypedMetadata> {
    let rows = Expr::new(RawExpr::Variable(Variable::new("n")));
    let cols = Expr::new(RawExpr::NatLiteral(1));
    typed(TypeExpr::Matrix(rows, cols), RawExpr::Variable(Variable::new(name)))
}

fn square(name: &str) -> Expr<TypedMetadata> {
    let rows = Expr::new(RawExpr::Variable(Variable::new("n")));
    let cols = Expr::new(RawExpr::Variable(Variable::new("n")));
    typed(TypeExpr::Matrix(rows, cols), RawExpr::Variable(Variable::new(name)))
}

fn real_scalar(name: &str) -> Expr<TypedMetadata> {
    typed(TypeExpr::Real, RawExpr::Variable(Variable::new(name)))
}

fn literal(n: u64) -> Expr<TypedMetadata> {
    untyped(RawExpr::NatLiteral(n))
}

fn norm(operand: Expr<TypedMetadata>) -> Expr<TypedMetadata> {
    untyped(RawExpr::Monop(Monop::Norm2, operand))
}

fn squared_norm(operand: Expr<TypedMetadata>) -> Expr<TypedMetadata> {
    untyped(RawExpr::Binop(Binop::Power, norm(operand), literal(2)))
}

fn square_root(base: Expr<TypedMetadata>) -> Expr<TypedMetadata> {
    let half = untyped(RawExpr::Binop(Binop::Div, literal(1), literal(2)));
    untyped(RawExpr::Binop(Binop::Power, base, half))
}

fn latex(expression: &Expr<TypedMetadata>) -> String {
    expression.as_latex().to_string()
}

#[test]
fn squared_two_norm_lowers_directly_to_a_scalar_gram_product() {
    let mut visitor = Norm2SquaredVisitor::default();
    let mut node = typed(TypeExpr::Real, RawExpr::Binop(Binop::Power, norm(column("v")), literal(2)));
    visitor.lower_node(&VisitContext::positive(), &mut node);
    assert_eq!(latex(&node), r"\operatorname{cast}(\mathbb{R}, v^\top v)");
    assert_eq!(node.meta.get_type().unwrap(), TypeExpr::Real);
    assert_eq!(visitor.finish(), Ok(1));
}

#[test]
fn a_squared_norm_of_a_scalar_is_refused() {
    let mut visitor = Norm2SquaredVisitor::default();
    let mut node = squared_norm(real_scalar("t"));
    let before = latex(&node);
    visitor.lower_node(&VisitContext::positive(), &mut node);
    assert_eq!(latex(&node), before);
    assert_eq!(visitor.finish(), Err(TypeError::Invalid("2-norm requires a real column matrix")));
}

#[test]
fn a_norm_to_another_power_is_not_a_squared_norm() {
    let mut visitor = Norm2SquaredVisitor::default();
    let mut node = untyped(RawExpr::Binop(Binop::Power, norm(column("x")), literal(3)));
    let before = latex(&node);
    visitor.lower_node(&VisitContext::positive(), &mut node);
    assert_eq!(latex(&node), before);
    assert_eq!(visitor.finish(), Ok(0));
}

#[test]
fn two_norm_introduces_a_guaranteed_nonnegative_principal_root() {
    let mut visitor = Norm2Visitor::default();
    let mut node = norm(column("v"));
    visitor.lower_node(&VisitContext::positive(), &mut node);
    let (rewrites, conditions) = visitor.finish().unwrap();
    assert_eq!(rewrites, 1);
    let RawExpr::Variable(introduced) = &node.raw else {
        panic!("2-norm was not replaced by a synthetic variable")
    };
    assert_eq!(introduced.name, r"\left\lVert v \right\rVert_{2}");
    let [condition] = conditions.as_slice() else {
        panic!("expected one norm side condition")
    };
    assert_eq!(condition.introduced_variable, *introduced);
    assert_eq!(condition.display_name, r"\left\lVert v \right\rVert_{2}");
    assert_eq!(condition.introduced_type, TypeExpr::Real);
    assert!(condition.active_ranges.is_empty());
    assert!(matches!(condition.existence, Existence::Guaranteed));
    assert_eq!(condition.defining_assertions.len(), 2);
    let RawExpr::CmpChain(square) = &condition.defining_assertions[0].raw else {
        panic!("first definition must be an equality")
    };
    assert_eq!(square.assertions[0].0, Cmp::Eq);
    assert!(matches!(square.start.raw, RawExpr::Finop(Finop::Times, _)));
    assert_eq!(square.assertions[0].1.as_latex().to_string(), r"\operatorname{cast}(\mathbb{R}, v^\top v)");
    let RawExpr::CmpChain(nonnegative) = &condition.defining_assertions[1].raw else {
        panic!("second definition must be a comparison")
    };
    assert_eq!(nonnegative.assertions[0].0, Cmp::Ge);
    assert!(node.meta.get_type().is_err());
}

#[test]
fn two_norm_rejects_nonmatrix_operands() {
    let mut visitor = Norm2Visitor::default();
    let mut node = norm(real_scalar("a"));
    visitor.lower_node(&VisitContext::positive(), &mut node);
    assert_eq!(visitor.finish().unwrap_err(), TypeError::Invalid("2-norm requires a real column matrix"));
}

#[test]
fn the_same_norm_is_recorded_once() {
    let mut visitor = Norm2Visitor::default();
    let mut first = norm(column("x"));
    let mut second = norm(column("x"));
    visitor.lower_node(&VisitContext::positive(), &mut first);
    visitor.lower_node(&VisitContext::positive(), &mut second);
    assert_eq!(latex(&first), latex(&second));
    let (rewrites, conditions) = visitor.finish().unwrap();
    assert_eq!(rewrites, 2);
    assert_eq!(conditions.len(), 1);
}

#[test]
fn a_real_square_root_exists_unless_its_radicand_is_negative() {
    let mut visitor = SquareRootVisitor::default();
    let mut node = square_root(real_scalar("y"));
    visitor.lower_node(&VisitContext::positive(), &mut node);
    let taken = visitor.side_conditions();
    assert_eq!(taken.len(), 1);
    let root = &taken[0];
    assert_eq!(root.introduced_variable.z3_name(), r"y^{\frac{1}{2}}");
    assert_eq!(root.introduced_type, TypeExpr::Real);
    assert_eq!(root.defining_assertions.len(), 2);
    match &root.existence {
        Existence::Checkable(checks) => {
            assert_eq!(checks.len(), 1);
            assert_eq!(latex(&checks[0]), "y < 0");
        }
        _ => panic!("a real root is checkable"),
    }
    assert_eq!(latex(&node), r"y^{\frac{1}{2}}");
    let (rewrites, rest) = visitor.finish().unwrap();
    assert_eq!(rewrites, 1);
    assert!(rest.is_empty());
}

#[test]
fn a_matrix_square_root_is_assumed_to_exist() {
    let mut visitor = SquareRootVisitor::default();
    let mut node = square_root(square("A"));
    visitor.lower_node(&VisitContext::positive(), &mut node);
    let (_, conditions) = visitor.finish().unwrap();
    let root = &conditions[0];
    assert!(matches!(root.existence, Existence::Assumed));
    assert_eq!(root.defining_assertions.len(), 1);
    assert!(matches!(root.introduced_type, TypeExpr::Matrix(_, _)));
}

#[test]
fn a_square_root_of_an_untyped_base_is_left_for_later() {
    let mut visitor = SquareRootVisitor::default();
    let mut node = square_root(untyped(RawExpr::Variable(Variable::new("y"))));
    let before = latex(&node);
    visitor.lower_node(&VisitContext::positive(), &mut node);
    assert_eq!(latex(&node), before);
    assert_eq!(visitor.finish().unwrap().0, 0);
}

#[test]
fn a_square_root_of_a_truth_value_is_refused() {
    let mut visitor = SquareRootVisitor::default();
    let mut node = square_root(typed(TypeExpr::Bool, RawExpr::Variable(Variable::new("p"))));
    visitor.lower_node(&VisitContext::positive(), &mut node);
    assert_eq!(
        visitor.finish().unwrap_err(),
        TypeError::Invalid("square root requires a real scalar or square real matrix")
    );
}

fn range(index: &str, from: u64, to: Expr<()>) -> Range<()> {
    Range { index_variable: Variable::new(index), from: Expr::new(RawExpr::NatLiteral(from)), to }
}

fn index(name: &str) -> Expr<TypedMetadata> {
    typed(TypeExpr::Nat, RawExpr::Variable(Variable::new(name)))
}

#[test]
fn roots_under_sequence_operations_are_lifted_pointwise() {
    let n = Expr::new(RawExpr::Variable(Variable::new("n")));
    let context = VisitContext { logical_polarity: true, active_ranges: vec![range("i", 1, n)] };
    let lambda = typed(
        TypeExpr::Sequence(Expr::new(RawExpr::Type(TypeExpr::Real)), Expr::new(RawExpr::Variable(Variable::new("n")))),
        RawExpr::Variable(Variable::new(r"\lambda")),
    );
    let element = typed(TypeExpr::Real, RawExpr::Binop(Binop::SingleSubscript, lambda, index("i")));
    let mut body = square_root(element);
    let mut visitor = SquareRootVisitor::default();
    visitor.lower_node(&context, &mut body);
    let (_, conditions) = visitor.finish().unwrap();
    let [condition] = conditions.as_slice() else {
        panic!("expected one lifted root condition")
    };
    assert_eq!(condition.active_ranges.len(), 1);
    assert!(matches!(condition.introduced_type, TypeExpr::Sequence(_, _)));
    assert!(condition.introduced_variable.name.contains("operatorname{map}"));
    let range = Range { index_variable: Variable::new("i"), from: literal(1), to: index("n") };
    let sum = untyped(RawExpr::Seqop(SeqOp::Sum, range, body));
    let RawExpr::Seqop(SeqOp::Sum, _, body) = &sum.raw else {
        panic!("expected the original sum")
    };
    assert!(matches!(body.raw, RawExpr::Binop(Binop::SingleSubscript, _, _)));
}

#[test]
fn generated_values_under_nested_ranges_use_nested_sequences() {
    let context = VisitContext {
        logical_polarity: true,
        active_ranges: vec![
            range("i", 1, Expr::new(RawExpr::NatLiteral(2))),
            range("j", 1, Expr::new(RawExpr::NatLiteral(3))),
        ],
    };
    let radicand = typed(
        TypeExpr::Real,
        RawExpr::Finop(Finop::Plus, vec![real_scalar("x"), index("i"), index("j")]),
    );
    let mut node = square_root(radicand);
    let mut visitor = SquareRootVisitor::default();
    visitor.lower_node(&context, &mut node);
    let (_, conditions) = visitor.finish().unwrap();
    let [condition] = conditions.as_slice() else {
        panic!("expected one nested pointwise condition")
    };
    assert_eq!(condition.active_ranges.len(), 2);
    let TypeExpr::Sequence(outer, _) = &condition.introduced_type else {
        panic!("expected an outer sequence")
    };
    assert!(matches!(outer.raw, RawExpr::Type(TypeExpr::Sequence(_, _))));
}
