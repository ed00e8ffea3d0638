use tex_models::context::{Existence, SideCondition};
use tex_models::elaboration::{substitute_index, validate_forest, ElaborationError};
use tex_models::type_resolver::{MaybeTyped, TypedMetadata};
use tex_models::{Expr, Finop, Logic, LogicChain, Range, RawExpr, SeqOp, TypeExpr, Variable};

fn untyped(raw: RawExpr<TypedMetadata>) -> Expr<TypedMetadata> {
    Expr::with_metadata(TypedMetadata::default(), raw)
}

fn typed(ty: TypeExpr<()>, raw: RawExpr<TypedMetadata>) -> Expr<TypedMetadata> {
    Expr::with_metadata(TypedMetadata::resolved(ty), raw)
}

fn variable(name: &str) -> Expr<TypedMetadata> {
    untyped(RawExpr::Variable(Variable::new(name)))
}

fn scalar(name: &str) -> Expr<TypedMetadata> {
    typed(TypeExpr::Real, RawExpr::Variable(Variable::new(name)))
}

#[test]
fn substituting_an_index_replaces_free_occurrences_only() {
    let shadowed = untyped(RawExpr::Seqop(
        SeqOp::Sum,
        Range {
            index_variable: Variable::new("i"),
            from: untyped(RawExpr::NatLiteral(1)),
            to: variable("i"),
        },
        variable("i"),
    ));
    let expression = untyped(RawExpr::Finop(Finop::Plus, vec![variable("i"), shadowed, variable("j")]));
    let result = substitute_index(&expression, &Variable::new("i"), 3);
    assert_eq!(result.as_latex().to_string(), expression_with_three().as_latex().to_string());
}

fn expression_with_three() -> Expr<TypedMetadata> {
    let shadowed = untyped(RawExpr::Seqop(
        SeqOp::Sum,
        Range {
            index_variable: Variable::new("i"),
            from: untyped(RawExpr::NatLiteral(1)),
            to: untyped(RawExpr::NatLiteral(3)),
        },
        variable("i"),
    ));
    untyped(RawExpr::Finop(Finop::Plus, vec![untyped(RawExpr::NatLiteral(3)), shadowed, variable("j")]))
}

#[test]
fn substituting_an_index_specializes_recorded_types() {
    let column: TypeExpr<()> = TypeExpr::Matrix(
        Expr::new(RawExpr::Variable(Variable::new("i"))),
        Expr::new(RawExpr::NatLiteral(1)),
    );
    let expression = typed(column, RawExpr::Variable(Variable::new("x")));
    let result = substitute_index(&expression, &Variable::new("i"), 4);
    let Ok(TypeExpr::Matrix(rows, cols)) = result.meta.get_type() else {
        panic!("expected a matrix type")
    };
    assert!(matches!(rows.raw, RawExpr::NatLiteral(4)));
    assert!(matches!(cols.raw, RawExpr::NatLiteral(1)));
    assert!(matches!(&result.raw, RawExpr::Variable(x) if x == &Variable::new("x")));
}

#[test]
fn core_syntax_passes_validation() {
    let sum = typed(TypeExpr::Real, RawExpr::Finop(Finop::Plus, vec![scalar("x"), scalar("y")]));
    assert_eq!(validate_forest(&sum, &Vec::new()), Ok(()));
}

#[test]
fn holes_fail_validation() {
    let hole = untyped(RawExpr::Hole);
    assert_eq!(
        validate_forest(&hole, &Vec::new()),
        Err(ElaborationError::Unsupported("holes are not supported by to_z3"))
    );
}

#[test]
fn subtrees_are_reported_before_the_node_that_holds_them() {
    let chain = untyped(RawExpr::LogicChain(LogicChain {
        start: untyped(RawExpr::Ellipsis),
        assertions: vec![(Logic::Iff, scalar("x"))],
    }));
    assert_eq!(
        validate_forest(&chain, &Vec::new()),
        Err(ElaborationError::Unsupported("ellipses must be eliminated before Z3 lowering"))
    );
    let chain = untyped(RawExpr::LogicChain(LogicChain {
        start: scalar("x"),
        assertions: vec![(Logic::Iff, scalar("y"))],
    }));
    assert_eq!(
        validate_forest(&chain, &Vec::new()),
        Err(ElaborationError::Unsupported("logic chain remains after preprocessing"))
    );
}

#[test]
fn side_condition_assertions_are_validated_in_order() {
    let condition = SideCondition {
        introduced_variable: Variable::new("r"),
        display_name: "r".to_string(),
        introduced_type: TypeExpr::Real,
        active_ranges: Vec::new(),
        defining_assertions: vec![scalar("r")],
        existence: Existence::Checkable(vec![untyped(RawExpr::Type(TypeExpr::Real))]),
    };
    assert_eq!(
        validate_forest(&scalar("x"), &vec![condition]),
        Err(ElaborationError::Unsupported("type expressions are not supported by to_z3"))
    );
}

#[test]
fn matrix_cells_must_be_numeric_scalars() {
    let cell = typed(TypeExpr::Bool, RawExpr::Variable(Variable::new("p")));
    let matrix = untyped(RawExpr::Matrix(tex_models::Matrix { rows: 1, cols: 1, elements: vec![cell] }));
    assert_eq!(
        validate_forest(&matrix, &Vec::new()),
        Err(ElaborationError::InvalidOperands("flat matrix cells must be numeric scalars"))
    );
}
