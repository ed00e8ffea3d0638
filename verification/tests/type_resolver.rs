use tex_models::context::VisitContext;
use tex_models::type_resolver::{
    infer_node, MaybeTyped, OperatorTypeRules, SymbolicTypeEnvironment, TypeError, TypeResolver, TypedMetadata,
};
use tex_models::{Binop, Expr, Finop, Matrix, Monop, RawExpr, SeqOp, TypeExpr, Variable};

fn variable(name: &str) -> Expr<()> {
    Expr::new(RawExpr::Variable(Variable::new(name)))
}

fn natural(value: u64) -> Expr<()> {
    Expr::new(RawExpr::NatLiteral(value))
}

fn resolve(
    types: &SymbolicTypeEnvironment,
    rules: &OperatorTypeRules,
    expression: &Expr<()>,
) -> (Expr<TypedMetadata>, Result<(), TypeError>) {
    let mut typed: Expr<TypedMetadata> = expression.with_default_metadata();
    let result = TypeResolver::new(types, rules).resolve(&mut typed, VisitContext::positive());
    (typed, result)
}

#[test]
fn resolves_symbolic_matrix_dimensions_without_concretizing_them() {
    let n = variable("n");
    let p = variable("p");
    let types = SymbolicTypeEnvironment {
        types: vec![
            (Variable::new("A"), TypeExpr::Matrix(n.clone(), p.clone())),
            (Variable::new("B"), TypeExpr::Matrix(p, n.clone())),
        ],
    };
    let product = Expr::new(RawExpr::Finop(Finop::Times, vec![variable("A"), variable("B")]));
    let (typed, result) = resolve(&types, &OperatorTypeRules::core_rules(), &product);
    result.unwrap();
    assert_eq!(typed.meta.get_type().unwrap(), TypeExpr::Matrix(n.clone(), n));
}

#[test]
fn resolves_symbolic_block_matrix_dimensions() {
    let m = variable("m");
    let n = variable("n");
    let types = SymbolicTypeEnvironment {
        types: vec![
            (Variable::new("A"), TypeExpr::Matrix(m.clone(), n.clone())),
            (Variable::new("b"), TypeExpr::Matrix(m.clone(), natural(1))),
            (Variable::new("c"), TypeExpr::Matrix(n.clone(), natural(1))),
            (Variable::new("d"), TypeExpr::Real),
        ],
    };
    let block = Expr::new(RawExpr::Matrix(Matrix {
        rows: 2,
        cols: 2,
        elements: vec![
            variable("A"),
            variable("b"),
            Expr::new(RawExpr::Monop(Monop::Transpose, variable("c"))),
            variable("d"),
        ],
    }));
    let (typed, result) = resolve(&types, &OperatorTypeRules::core_rules(), &block);
    result.unwrap();
    assert_eq!(
        typed.meta.get_type().unwrap(),
        TypeExpr::Matrix(
            Expr::new(RawExpr::Finop(Finop::Plus, vec![m, natural(1)])),
            Expr::new(RawExpr::Finop(Finop::Plus, vec![n, natural(1)])),
        )
    );
}

#[test]
fn missing_rules_defer_typing() {
    let types = SymbolicTypeEnvironment {
        types: vec![(Variable::new("x"), TypeExpr::Real)],
    };
    let power = Expr::new(RawExpr::Binop(Binop::Power, variable("x"), natural(2)));
    let (typed, result) = resolve(&types, &OperatorTypeRules::new(), &power);
    result.unwrap();
    assert!(typed.meta.get_type().is_err());
    let RawExpr::Binop(_, base, exponent) = &typed.raw else {
        panic!("expected a power")
    };
    assert_eq!(base.meta.get_type().unwrap(), TypeExpr::Real);
    assert_eq!(exponent.meta.get_type().unwrap(), TypeExpr::Nat);

    let (typed, result) = resolve(&types, &OperatorTypeRules::core_rules(), &power);
    result.unwrap();
    assert_eq!(typed.meta.get_type().unwrap(), TypeExpr::Real);
}

#[test]
fn core_rules_leave_surface_norms_untyped_but_type_their_operands() {
    let types = SymbolicTypeEnvironment {
        types: vec![(Variable::new("v"), TypeExpr::Matrix(natural(2), natural(1)))],
    };
    let norm = Expr::new(RawExpr::Monop(Monop::Norm2, variable("v")));
    let (typed, result) = resolve(&types, &OperatorTypeRules::core_rules(), &norm);
    result.unwrap();
    assert!(typed.meta.get_type().is_err());
    let RawExpr::Monop(Monop::Norm2, operand) = &typed.raw else {
        panic!("expected a 2-norm")
    };
    assert!(matches!(operand.meta.get_type(), Ok(TypeExpr::Matrix(_, _))));
}

#[test]
fn typing_failures_are_reported_in_visiting_order() {
    let types = SymbolicTypeEnvironment {
        types: vec![
            (Variable::new("A"), TypeExpr::Matrix(natural(2), natural(2))),
            (Variable::new("x"), TypeExpr::Real),
        ],
    };
    let sum = Expr::new(RawExpr::Finop(Finop::Plus, vec![variable("A"), variable("x")]));
    let (_, result) = resolve(&types, &OperatorTypeRules::core_rules(), &sum);
    assert_eq!(result, Err(TypeError::Invalid("matrix and scalar addition is unsupported")));

    let transpose = Expr::new(RawExpr::Monop(Monop::Transpose, variable("x")));
    let (_, result) = resolve(&types, &OperatorTypeRules::core_rules(), &transpose);
    assert_eq!(result, Err(TypeError::Invalid("transpose requires a matrix")));
}

#[test]
fn sequence_indices_are_natural_and_may_not_shadow() {
    let types = SymbolicTypeEnvironment {
        types: vec![(Variable::new("x"), TypeExpr::Real)],
    };
    let sum = Expr::new(RawExpr::Seqop(
        SeqOp::Sum,
        tex_models::Range {
            index_variable: Variable::new("i"),
            from: natural(1),
            to: natural(3),
        },
        variable("i"),
    ));
    let (typed, result) = resolve(&types, &OperatorTypeRules::core_rules(), &sum);
    result.unwrap();
    assert_eq!(typed.meta.get_type().unwrap(), TypeExpr::Nat);

    let shadowing = Expr::new(RawExpr::Seqop(
        SeqOp::Sum,
        tex_models::Range {
            index_variable: Variable::new("x"),
            from: natural(1),
            to: natural(3),
        },
        variable("x"),
    ));
    let (_, result) = resolve(&types, &OperatorTypeRules::core_rules(), &shadowing);
    assert_eq!(
        result,
        Err(TypeError::Invalid("sequence index collides with a global variable or enclosing binder"))
    );
}

#[test]
fn set_comprehensions_have_set_types_without_exporting_the_binder() {
    let n = variable("n");
    let types = SymbolicTypeEnvironment {
        types: vec![(Variable::new("A"), TypeExpr::Matrix(n.clone(), n.clone()))],
    };
    let comprehension = Expr::new(RawExpr::SetComprehension {
        variable: Variable::new("X"),
        domain: TypeExpr::Matrix(n.clone(), n.clone()),
        predicate: Expr::new(RawExpr::CmpChain(tex_models::CmpChain {
            start: variable("X"),
            assertions: vec![(tex_models::Cmp::Eq, variable("A"))],
        })),
    });
    let (typed, result) = resolve(&types, &OperatorTypeRules::core_rules(), &comprehension);
    result.unwrap();
    assert!(matches!(
        typed.meta.get_type().unwrap(),
        TypeExpr::SetOf(element) if matches!(*element, TypeExpr::Matrix(_, _))
    ));
}

#[test]
fn the_step_at_one_node_types_it_from_its_typed_operands() {
    let types = SymbolicTypeEnvironment { types: vec![] };
    let rules = OperatorTypeRules::core_rules();
    let real = |name: &str| Expr::with_metadata(TypedMetadata::resolved(TypeExpr::Real), RawExpr::Variable(Variable::new(name)));
    let sum: RawExpr<TypedMetadata> = RawExpr::Finop(Finop::Plus, vec![real("a"), real("b")]);
    assert_eq!(infer_node(&types, &rules, &vec![], false, &sum), Ok(Some(TypeExpr::Real)));
    let literal: RawExpr<TypedMetadata> = RawExpr::NatLiteral(3);
    assert_eq!(infer_node(&types, &rules, &vec![], false, &literal), Ok(Some(TypeExpr::Nat)));
    let untyped = Expr::with_metadata(TypedMetadata::default(), RawExpr::Variable(Variable::new("c")));
    let partial: RawExpr<TypedMetadata> = RawExpr::Finop(Finop::Plus, vec![real("a"), untyped]);
    assert_eq!(infer_node(&types, &rules, &vec![], false, &partial), Ok(None));
}

#[test]
fn a_shared_node_is_reported_as_shared() {
    let types = SymbolicTypeEnvironment { types: vec![] };
    let rules = OperatorTypeRules::core_rules();
    let mut typed: Expr<TypedMetadata> = natural(1).with_default_metadata();
    let other = typed.clone();
    assert_eq!(TypeResolver::new(&types, &rules).resolve(&mut typed, VisitContext::positive()), Err(TypeError::Shared));
    drop(other);
}
