use tex_models::enumerable_envspec::{
    collect_free_variables, depends_on_implicit_dimension, infer_symbolic_type_environment, type_depends_on_implicit,
    ShapeError,
};
use tex_models::type_resolver::TypeLookup;
use tex_models::{
    Binop, Cmp, CmpChain, DimensionSupply, Expr, Finop, ImplicitDimension, Range, RawExpr, SeqOp, TypeExpr, Variable,
};

fn sequence(index: &str, body: Expr<()>) -> Expr<()> {
    Expr::new(RawExpr::Seqop(
        SeqOp::Sum,
        Range {
            index_variable: Variable::new(index),
            from: Expr::new(RawExpr::NatLiteral(1)),
            to: Expr::new(RawExpr::NatLiteral(2)),
        },
        body,
    ))
}

fn contains(variables: &[Variable], name: &str) -> bool {
    variables.iter().any(|variable| variable == &Variable::new(name))
}

#[test]
fn sequence_binders_reject_collisions_but_allow_sibling_reuse() {
    let variable = || Expr::new(RawExpr::Variable(Variable::new("i")));
    let nested = sequence("i", sequence("i", variable()));
    assert!(matches!(
        collect_free_variables(&nested, &mut Vec::new()),
        Err(ShapeError::InvalidTyping(_))
    ));

    let global_collision = Expr::new(RawExpr::Finop(
        Finop::Plus,
        vec![variable(), sequence("i", variable())],
    ));
    assert!(matches!(
        collect_free_variables(&global_collision, &mut Vec::new()),
        Err(ShapeError::InvalidTyping(_))
    ));

    let siblings = Expr::new(RawExpr::Finop(
        Finop::Plus,
        vec![sequence("i", variable()), sequence("i", variable())],
    ));
    let mut free = Vec::new();
    collect_free_variables(&siblings, &mut free).unwrap();
    assert!(!contains(&free, "i"));
}

#[test]
fn implicit_dimension_provenance_is_preserved_in_symbolic_expressions() {
    let mut supply = DimensionSupply::new();
    let dimension = ImplicitDimension::fresh(&mut supply);
    let compound: Expr<()> = Expr::new(RawExpr::Finop(
        Finop::Plus,
        vec![
            Expr::new(RawExpr::ImplicitDimension(dimension)),
            Expr::new(RawExpr::NatLiteral(1)),
        ],
    ));
    let ordinary: Expr<()> = Expr::new(RawExpr::Finop(
        Finop::Plus,
        vec![
            Expr::new(RawExpr::Variable(Variable::new("n"))),
            Expr::new(RawExpr::NatLiteral(1)),
        ],
    ));

    assert!(depends_on_implicit_dimension(&compound));
    assert!(type_depends_on_implicit(&TypeExpr::Matrix(
        compound,
        Expr::new(RawExpr::NatLiteral(1)),
    )));
    assert!(!depends_on_implicit_dimension(&ordinary));
}

#[test]
fn free_variables_skip_bound_indices_and_keep_the_rest() {
    let body = Expr::new(RawExpr::Finop(
        Finop::Times,
        vec![
            Expr::new(RawExpr::Variable(Variable::new("i"))),
            Expr::new(RawExpr::Variable(Variable::new("x"))),
        ],
    ));
    let mut free = vec![Variable::new("y")];
    assert_eq!(collect_free_variables(&sequence("i", body), &mut free), Ok(()));
    assert!(contains(&free, "x"));
    assert!(contains(&free, "y"));
    assert!(!contains(&free, "i"));
    assert_eq!(free.len(), 2);
}

#[test]
fn a_free_use_after_a_binder_names_the_collision() {
    let expression = Expr::new(RawExpr::Finop(
        Finop::Plus,
        vec![
            sequence("k", Expr::new(RawExpr::NatLiteral(1))),
            Expr::new(RawExpr::Variable(Variable::new("k"))),
        ],
    ));
    assert_eq!(
        collect_free_variables(&expression, &mut Vec::new()),
        Err(ShapeError::InvalidTyping(
            "sequence index k collides with a free variable".to_string()
        ))
    );
}

#[test]
fn identity_matrices_depend_on_implicit_dimensions() {
    let mut supply = DimensionSupply::new();
    let dimension = ImplicitDimension::fresh(&mut supply);
    let identity: Expr<()> = Expr::new(RawExpr::IdentityMatrix { dimension });
    assert!(depends_on_implicit_dimension(&identity));
    assert!(!type_depends_on_implicit(&TypeExpr::Real));
}

fn var(name: &str) -> Expr<()> {
    Expr::new(RawExpr::Variable(Variable::new(name)))
}

fn member(variable: Expr<()>, ty: TypeExpr<()>) -> Expr<()> {
    Expr::new(RawExpr::Binop(Binop::ElementOf, variable, Expr::new(RawExpr::Type(ty))))
}

fn equation(left: Expr<()>, right: Expr<()>) -> Expr<()> {
    Expr::new(RawExpr::CmpChain(CmpChain { start: left, assertions: vec![(Cmp::Eq, right)] }))
}

fn latex_of(ty: TypeExpr<()>) -> String {
    Expr::new(RawExpr::Type(ty)).as_latex().to_string()
}

#[test]
fn explicit_memberships_fix_types_and_make_their_dimensions_natural() {
    let assumptions = vec![member(var("A"), TypeExpr::Matrix(var("m"), var("n")))];
    let environment = infer_symbolic_type_environment(&assumptions).unwrap();
    assert_eq!(environment.types.len(), 3);
    assert_eq!(
        latex_of(environment.type_of(&Variable::new("A")).unwrap()),
        latex_of(TypeExpr::Matrix(var("m"), var("n")))
    );
    assert_eq!(environment.type_of(&Variable::new("m")), Some(TypeExpr::Nat));
    assert_eq!(environment.type_of(&Variable::new("n")), Some(TypeExpr::Nat));
    assert_eq!(environment.type_of(&Variable::new("q")), None);
}

#[test]
fn types_are_guessed_from_names() {
    let assumptions = vec![
        equation(var("a"), var("a")),
        equation(var("x"), var("x")),
        equation(var("B"), var("B")),
        equation(var("k"), var("k")),
    ];
    let environment = infer_symbolic_type_environment(&assumptions).unwrap();
    assert_eq!(environment.type_of(&Variable::new("a")), Some(TypeExpr::Real));
    assert_eq!(environment.type_of(&Variable::new("k")), Some(TypeExpr::Nat));
    assert_eq!(
        latex_of(environment.type_of(&Variable::new("x")).unwrap()),
        latex_of(TypeExpr::Matrix(var("x_{rows}"), Expr::new(RawExpr::NatLiteral(1))))
    );
    assert_eq!(
        latex_of(environment.type_of(&Variable::new("B")).unwrap()),
        latex_of(TypeExpr::Matrix(var("B_{rows}"), var("B_{cols}")))
    );
}

#[test]
fn a_guessed_dimension_may_not_take_a_user_name() {
    let mut rows = Variable::new("A");
    rows.non_numeric_subscript = "rows".to_string();
    let assumptions = vec![equation(var("A"), Expr::new(RawExpr::Variable(rows)))];
    assert_eq!(
        infer_symbolic_type_environment(&assumptions).unwrap_err(),
        ShapeError::InvalidTyping("generated dimension variable collides with user variable A_{rows}".to_string())
    );
}

#[test]
fn a_membership_needs_a_variable_on_the_left() {
    let assumptions = vec![member(Expr::new(RawExpr::NatLiteral(1)), TypeExpr::Real)];
    assert_eq!(
        infer_symbolic_type_environment(&assumptions).unwrap_err(),
        ShapeError::InvalidTyping("type membership must have a variable on the left".to_string())
    );
}
