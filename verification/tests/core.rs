use std::collections::BTreeSet;

use tex_models::expression_utils::{all_variables, contains_hole, fill_holes, holeifications, node_count};
use tex_models::{
    Binop, Cmp, CmpChain, DimensionSupply, Environment, Expr, Finop, ImplicitDimension, Logic,
    LogicChain, Matrix, NaturalEvaluationError, NaturalParameter, Range, RawExpr, SeqOp, TypeExpr,
    Variable,
};

struct MetadataWithoutClone;

#[test]
fn cloning_expr_does_not_require_cloneable_metadata() {
    let expression = Expr::with_metadata(MetadataWithoutClone, RawExpr::NatLiteral(1));
    let _clone = expression.clone();
}

#[test]
fn default_metadata_preserves_holes() {
    let expression: Expr<()> = Expr::with_metadata(1, RawExpr::Hole).with_default_metadata();
    assert!(matches!(expression.raw, RawExpr::Hole));
}

#[test]
fn natural_parameters_keep_variables_and_nonces_distinct() {
    let mut supply = DimensionSupply::new();
    let dimension = ImplicitDimension::fresh(&mut supply);
    assert_ne!(
        NaturalParameter::Variable(Variable::new(dimension.z3_name().as_str())),
        NaturalParameter::ImplicitDimension(dimension)
    );
}

#[test]
fn evaluates_natural_expressions_used_by_symbolic_types() {
    let n = Variable::new("n");
    let mut supply = DimensionSupply::new();
    let dimension = ImplicitDimension::fresh(&mut supply);
    let environment = Environment {
        natural_assignment: vec![
            (NaturalParameter::Variable(n.clone()), 2),
            (NaturalParameter::ImplicitDimension(dimension), 1),
        ],
    };
    let rows: Expr<()> = Expr::new(RawExpr::ImplicitDimension(dimension));
    let cols: Expr<()> = Expr::new(RawExpr::Finop(
        Finop::Plus,
        vec![
            Expr::new(RawExpr::Variable(n)),
            Expr::new(RawExpr::NatLiteral(1)),
        ],
    ));
    assert_eq!(environment.evaluate_natural(&cols), Ok(3));
    assert_eq!(environment.evaluate_natural(&rows), Ok(1));
}

#[test]
fn natural_evaluation_reports_missing_assignments_and_overflow() {
    let missing: Expr<()> = Expr::new(RawExpr::Variable(Variable::new("n")));
    assert!(matches!(
        Environment::default().evaluate_natural(&missing),
        Err(NaturalEvaluationError::MissingAssignment(_))
    ));
    let overflow: Expr<()> = Expr::new(RawExpr::Finop(
        Finop::Times,
        vec![
            Expr::new(RawExpr::NatLiteral(u64::MAX)),
            Expr::new(RawExpr::NatLiteral(2)),
        ],
    ));
    assert_eq!(
        Environment::default().evaluate_natural(&overflow),
        Err(NaturalEvaluationError::Overflow)
    );
}

#[test]
fn default_metadata_recursively_replaces_metadata() {
    fn expression(metadata: u8) -> Expr<u8> {
        Expr::with_metadata(
            metadata,
            RawExpr::Finop(
                Finop::Plus,
                vec![
                    Expr::with_metadata(metadata, RawExpr::Variable(Variable::new("x"))),
                    Expr::with_metadata(
                        metadata,
                        RawExpr::Finop(
                            Finop::Times,
                            vec![
                                Expr::with_metadata(metadata, RawExpr::NatLiteral(2)),
                                Expr::with_metadata(metadata, RawExpr::NatLiteral(3)),
                            ],
                        ),
                    ),
                ],
            ),
        )
    }

    let left: Expr<()> = expression(1).with_default_metadata();
    let right: Expr<()> = expression(2).with_default_metadata();
    assert_eq!(left, right);
}

#[test]
fn default_metadata_replaces_symbolic_type_dimension_metadata() {
    let expression = Expr::with_metadata(
        1,
        RawExpr::Type(TypeExpr::Matrix(
            Expr::with_metadata(2, RawExpr::Variable(Variable::new("n"))),
            Expr::with_metadata(
                3,
                RawExpr::Finop(
                    Finop::Plus,
                    vec![
                        Expr::with_metadata(4, RawExpr::Variable(Variable::new("d"))),
                        Expr::with_metadata(5, RawExpr::Variable(Variable::new("p"))),
                    ],
                ),
            ),
        )),
    );
    let erased: Expr<()> = expression.with_default_metadata();
    assert!(matches!(erased.raw, RawExpr::Type(TypeExpr::Matrix(_, _))));
}

#[test]
fn default_metadata_replaces_sequence_element_and_size_metadata() {
    fn sequence(metadata: u8) -> Expr<u8> {
        Expr::with_metadata(
            metadata,
            RawExpr::Type(TypeExpr::Sequence(
                Expr::with_metadata(
                    metadata + 1,
                    RawExpr::Type(TypeExpr::Matrix(
                        Expr::with_metadata(metadata + 2, RawExpr::Variable(Variable::new("d"))),
                        Expr::with_metadata(metadata + 3, RawExpr::NatLiteral(1)),
                    )),
                ),
                Expr::with_metadata(metadata + 4, RawExpr::Variable(Variable::new("n"))),
            )),
        )
    }

    assert_eq!(
        sequence(1).with_default_metadata::<()>(),
        sequence(10).with_default_metadata::<()>()
    );
}

#[test]
fn default_metadata_preserves_implicit_dimension_identity() {
    let mut supply = DimensionSupply::new();
    let dimension = ImplicitDimension::fresh(&mut supply);
    let expression = Expr::with_metadata(
        1,
        RawExpr::StandardBasis {
            index: Expr::with_metadata(2, RawExpr::Variable(Variable::new("i"))),
            dimension,
        },
    );
    assert!(matches!(
        expression.with_default_metadata::<()>().raw,
        RawExpr::StandardBasis {
            dimension: found,
            ..
        } if found == dimension
    ));
}

fn natural(value: u64) -> Expr<()> {
    Expr::new(RawExpr::NatLiteral(value))
}

#[test]
fn counts_and_holeifies_every_expression_node() {
    let cases = vec![
        (natural(1), 1),
        (
            Expr::new(RawExpr::Binop(Binop::Div, natural(1), natural(2))),
            3,
        ),
        (
            Expr::new(RawExpr::Matrix(Matrix {
                rows: 1,
                cols: 2,
                elements: vec![natural(1), natural(2)],
            })),
            3,
        ),
        (
            Expr::new(RawExpr::Type(TypeExpr::Matrix(natural(1), natural(2)))),
            3,
        ),
        (
            Expr::new(RawExpr::Seqop(
                SeqOp::Mapped,
                Range {
                    index_variable: Variable::new("i"),
                    from: natural(1),
                    to: natural(2),
                },
                natural(3),
            )),
            4,
        ),
        (
            Expr::new(RawExpr::LogicChain(LogicChain {
                start: natural(1),
                assertions: vec![(Logic::Iff, natural(2)), (Logic::Imp, natural(3))],
            })),
            4,
        ),
    ];

    for (expression, expected_nodes) in cases {
        assert_eq!(node_count(&expression), expected_nodes);
        let variants = holeifications(&expression);
        assert_eq!(variants.len(), expected_nodes + 1);
        assert_eq!(variants[0], expression);
        assert!(variants[1..].iter().all(contains_hole));
        for mut variant in variants {
            assert!(variant.get_mut().is_some());
        }
    }
}

#[test]
fn holeifications_preserve_retained_metadata_and_default_generated_holes() {
    let expression = Expr::with_metadata(
        9_u8,
        RawExpr::Binop(
            Binop::Div,
            Expr::with_metadata(8, RawExpr::NatLiteral(1)),
            Expr::with_metadata(7, RawExpr::NatLiteral(2)),
        ),
    );
    let variants = holeifications(&expression);
    let child_hole = variants
        .iter()
        .find(|variant| {
            matches!(
                &variant.raw,
                RawExpr::Binop(_, left, right)
                    if matches!(left.raw, RawExpr::Hole)
                        && matches!(right.raw, RawExpr::NatLiteral(2))
            )
        })
        .unwrap();
    let RawExpr::Binop(_, left, right) = &child_hole.raw else {
        unreachable!()
    };
    assert_eq!(child_hole.meta, 9);
    assert_eq!(left.meta, 0);
    assert_eq!(right.meta, 7);
    let root_hole = variants
        .iter()
        .find(|variant| matches!(variant.raw, RawExpr::Hole))
        .unwrap();
    assert_eq!(root_hole.meta, 0);
}

#[test]
fn fills_holes_and_collects_bound_and_free_variable_names() {
    let expression = Expr::new(RawExpr::LogicChain(LogicChain {
        start: Expr::new(RawExpr::Hole),
        assertions: vec![(
            Logic::Imp,
            Expr::new(RawExpr::Seqop(
                SeqOp::Sum,
                Range {
                    index_variable: Variable::new("i"),
                    from: natural(1),
                    to: Expr::new(RawExpr::Variable(Variable::new("n"))),
                },
                Expr::new(RawExpr::Variable(Variable::new("i"))),
            )),
        )],
    }));
    let replacement = Expr::new(RawExpr::Variable(Variable::new("x")));
    let filled = fill_holes(&expression, &replacement);
    assert!(!contains_hole(&filled));
    assert_eq!(
        all_variables(&vec![filled]).into_iter().collect::<BTreeSet<_>>(),
        ["i", "n", "x"]
            .map(Variable::new)
            .into_iter()
            .collect::<BTreeSet<_>>()
    );
}

#[test]
fn larger_one_hole_variants_are_more_specific() {
    let expression = Expr::new(RawExpr::Binop(
        Binop::Div,
        Expr::new(RawExpr::Binop(Binop::Div, natural(1), natural(2))),
        natural(3),
    ));
    let variants = holeifications(&expression);
    let sizes = variants[1..].iter().map(node_count).collect::<Vec<_>>();
    assert!(sizes.windows(2).all(|pair| pair[0] >= pair[1]));
    assert!(matches!(variants.last().unwrap().raw, RawExpr::Hole));
}

#[test]
fn identical_replacements_are_deduplicated() {
    let expression = Expr::new(RawExpr::CmpChain(CmpChain {
        start: natural(1),
        assertions: vec![(Cmp::Eq, natural(1))],
    }));
    let variants = holeifications(&expression);
    assert_eq!(
        variants.iter().collect::<BTreeSet<_>>().len(),
        variants.len()
    );
}
