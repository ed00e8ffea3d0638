use tex_models::context::VisitContext;
use tex_models::formula::free_variables;
use tex_models::operator_visitors::{Norm2Visitor, SquareRootVisitor};
use tex_models::set_lowering::SetMembershipLowering;
use tex_models::type_resolver::{
    MaybeTyped, OperatorTypeRules, SymbolicTypeEnvironment, TypeError, TypeResolver, TypedMetadata,
};
use tex_models::{Binop, Cmp, CmpChain, Expr, Finop, Monop, RawExpr, TypeExpr, Variable};

fn typed(ty: TypeExpr<()>, raw: RawExpr<TypedMetadata>) -> Expr<TypedMetadata> {
    Expr::with_metadata(TypedMetadata::resolved(ty), raw)
}

fn scalar_variable(name: &str) -> Expr<TypedMetadata> {
    typed(TypeExpr::Real, RawExpr::Variable(Variable::new(name)))
}

fn positive(name: &str, predicate_type: TypeExpr<()>) -> Expr<TypedMetadata> {
    let zero = typed(TypeExpr::Nat, RawExpr::NatLiteral(0));
    typed(predicate_type, RawExpr::CmpChain(CmpChain { start: scalar_variable(name), assertions: vec![(Cmp::Gt, zero)] }))
}

fn membership(subject: Expr<TypedMetadata>, predicate: Expr<TypedMetadata>) -> Expr<TypedMetadata> {
    let set = Expr::with_metadata(
        TypedMetadata::default(),
        RawExpr::SetComprehension { variable: Variable::new("x"), domain: TypeExpr::Real, predicate },
    );
    typed(TypeExpr::Bool, RawExpr::Binop(Binop::ElementOf, subject, set))
}

#[test]
fn membership_in_a_comprehension_becomes_domain_check_and_predicate() {
    let mut lowering = SetMembershipLowering::default();
    let mut node = membership(scalar_variable("y"), positive("x", TypeExpr::Bool));
    lowering.lower_node(&VisitContext::positive(), &mut node);
    assert_eq!(node.as_latex().to_string(), r"y \in \mathbb{R} \land y > 0");
    assert!(node.meta.get_type().is_err());
    assert_eq!(lowering.finish(), Ok(1));
}

#[test]
fn a_predicate_not_known_to_be_boolean_is_refused() {
    let mut lowering = SetMembershipLowering::default();
    let mut node = membership(scalar_variable("y"), positive("x", TypeExpr::Real));
    lowering.lower_node(&VisitContext::positive(), &mut node);
    assert_eq!(lowering.finish(), Err(TypeError::Invalid("set comprehension predicate must be Boolean")));
}

#[test]
fn other_nodes_are_left_alone() {
    let mut lowering = SetMembershipLowering::default();
    let mut node = positive("y", TypeExpr::Bool);
    let before = node.as_latex().to_string();
    lowering.lower_node(&VisitContext::positive(), &mut node);
    assert_eq!(node.as_latex().to_string(), before);
    assert_eq!(lowering.finish(), Ok(0));
}

fn plain(name: &str) -> Expr<TypedMetadata> {
    Expr::with_metadata(TypedMetadata::default(), RawExpr::Variable(Variable::new(name)))
}

fn node(raw: RawExpr<TypedMetadata>) -> Expr<TypedMetadata> {
    Expr::with_metadata(TypedMetadata::default(), raw)
}

fn greater_than_zero(subject: Expr<TypedMetadata>) -> Expr<TypedMetadata> {
    node(RawExpr::CmpChain(CmpChain { start: subject, assertions: vec![(Cmp::Gt, node(RawExpr::NatLiteral(0)))] }))
}

fn comprehension(binder: &str, domain: TypeExpr<TypedMetadata>, predicate: Expr<TypedMetadata>) -> Expr<TypedMetadata> {
    node(RawExpr::SetComprehension { variable: Variable::new(binder), domain, predicate })
}

fn element_of(subject: Expr<TypedMetadata>, set: Expr<TypedMetadata>) -> Expr<TypedMetadata> {
    node(RawExpr::Binop(Binop::ElementOf, subject, set))
}

fn typed_fully(types: &SymbolicTypeEnvironment, expression: &mut Expr<TypedMetadata>) {
    let rules = OperatorTypeRules::core_rules();
    TypeResolver::new(types, &rules).resolve(expression, VisitContext::positive()).unwrap();
}

fn conjuncts(expression: &Expr<TypedMetadata>) -> Vec<Expr<TypedMetadata>> {
    let RawExpr::Finop(Finop::And, parts) = &expression.raw else {
        panic!("a lowered membership is a conjunction")
    };
    parts.clone()
}

#[test]
fn compound_subjects_and_nested_memberships_lower_step_by_step() {
    let types = SymbolicTypeEnvironment { types: vec![(Variable::new("y"), TypeExpr::Real)] };
    let y_plus_one = node(RawExpr::Finop(Finop::Plus, vec![plain("y"), node(RawExpr::NatLiteral(1))]));
    let mut expression = element_of(y_plus_one, comprehension("x", TypeExpr::Real, greater_than_zero(plain("x"))));
    typed_fully(&types, &mut expression);
    let mut lowering = SetMembershipLowering::default();
    lowering.lower_node(&VisitContext::positive(), &mut expression);
    typed_fully(&types, &mut expression);
    assert!(expression.as_latex().to_string().contains("y + 1 > 0"));

    let inner = comprehension("z", TypeExpr::Real, greater_than_zero(plain("z")));
    let mut expression = element_of(plain("y"), comprehension("x", TypeExpr::Real, element_of(plain("x"), inner)));
    typed_fully(&types, &mut expression);
    lowering.lower_node(&VisitContext::positive(), &mut expression);
    typed_fully(&types, &mut expression);
    let mut parts = conjuncts(&expression);
    let mut nested = parts[1].clone();
    lowering.lower_node(&VisitContext::positive(), &mut nested);
    parts[1] = nested;
    let lowered = node(RawExpr::Finop(Finop::And, parts));
    assert!(!lowered.as_latex().to_string().contains("left\\{"));
    assert_eq!(lowering.finish(), Ok(3));
}

#[test]
fn roots_and_norms_are_lowered_after_substitution() {
    let types = SymbolicTypeEnvironment { types: vec![(Variable::new("y"), TypeExpr::Real)] };
    let half = node(RawExpr::Binop(Binop::Div, node(RawExpr::NatLiteral(1)), node(RawExpr::NatLiteral(2))));
    let root = node(RawExpr::Binop(Binop::Power, plain("x"), half));
    let mut expression = element_of(plain("y"), comprehension("x", TypeExpr::Real, greater_than_zero(root)));
    typed_fully(&types, &mut expression);
    let mut lowering = SetMembershipLowering::default();
    lowering.lower_node(&VisitContext::positive(), &mut expression);
    typed_fully(&types, &mut expression);
    let parts = conjuncts(&expression);
    let RawExpr::CmpChain(chain) = &parts[1].raw else {
        panic!("the substituted predicate is a comparison")
    };
    let mut roots = SquareRootVisitor::default();
    let mut substituted_root = chain.start.clone();
    roots.lower_node(&VisitContext::positive(), &mut substituted_root);
    let (_, conditions) = roots.finish().unwrap();
    assert_eq!(conditions.len(), 1);
    for condition in &conditions {
        assert!(!free_variables(&condition.defining_assertions).contains(&Variable::new("x")));
    }

    let n = Expr::new(RawExpr::Variable(Variable::new("n")));
    let column = TypeExpr::Matrix(n.clone(), Expr::new(RawExpr::NatLiteral(1)));
    let types = SymbolicTypeEnvironment {
        types: vec![(Variable::new("v"), column.clone()), (Variable::new("n"), TypeExpr::Nat)],
    };
    let norm = node(RawExpr::Monop(Monop::Norm2, plain("x")));
    let domain = TypeExpr::Matrix(
        Expr::with_metadata(TypedMetadata::default(), RawExpr::Variable(Variable::new("n"))),
        Expr::with_metadata(TypedMetadata::default(), RawExpr::NatLiteral(1)),
    );
    let mut expression = element_of(plain("v"), comprehension("x", domain, greater_than_zero(norm)));
    typed_fully(&types, &mut expression);
    lowering = SetMembershipLowering::default();
    lowering.lower_node(&VisitContext::positive(), &mut expression);
    typed_fully(&types, &mut expression);
    let parts = conjuncts(&expression);
    let RawExpr::CmpChain(chain) = &parts[1].raw else {
        panic!("the substituted predicate is a comparison")
    };
    let mut norms = Norm2Visitor::default();
    let mut substituted_norm = chain.start.clone();
    norms.lower_node(&VisitContext::positive(), &mut substituted_norm);
    let (_, conditions) = norms.finish().unwrap();
    assert_eq!(conditions.len(), 1);
}
