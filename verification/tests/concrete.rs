use tex_models::concrete::{materialize_sequence, DiagonalVisitor, MembershipVisitor, SequenceVisitor};
use tex_models::elaboration::ElaborationError;
use tex_models::type_resolver::{MaybeTyped, TypedMetadata};
use tex_models::{
    Binop, Cmp, Environment, Expr, Finop, Matrix, NaturalParameter, Range, RawExpr, SeqOp, TypeExpr, Variable,
};

fn typed(ty: TypeExpr<()>, raw: RawExpr<TypedMetadata>) -> Expr<TypedMetadata> {
    Expr::with_metadata(TypedMetadata::resolved(ty), raw)
}

fn natural(value: u64) -> Expr<TypedMetadata> {
    typed(TypeExpr::Nat, RawExpr::NatLiteral(value))
}

fn sequence_type(length: u64) -> TypeExpr<()> {
    TypeExpr::Sequence(Expr::new(RawExpr::Type(TypeExpr::Real)), Expr::new(RawExpr::NatLiteral(length)))
}

fn matrix_type(rows: u64, cols: u64) -> TypeExpr<()> {
    TypeExpr::Matrix(Expr::new(RawExpr::NatLiteral(rows)), Expr::new(RawExpr::NatLiteral(cols)))
}

fn sequence_variable(name: &str, length: u64) -> Expr<TypedMetadata> {
    typed(sequence_type(length), RawExpr::Variable(Variable::new(name)))
}

fn latex(expression: &Expr<TypedMetadata>) -> String {
    expression.as_latex().to_string()
}

fn index_range(from: u64, to: Expr<TypedMetadata>) -> Range<TypedMetadata> {
    Range { index_variable: Variable::new("i"), from: natural(from), to }
}

fn index() -> Expr<TypedMetadata> {
    typed(TypeExpr::Nat, RawExpr::Variable(Variable::new("i")))
}

#[test]
fn diagonalization_rejects_nonvariable_and_empty_sequences() {
    let sequence_type = |length| {
        TypeExpr::Sequence(Expr::new(RawExpr::Type(TypeExpr::Real)), Expr::new(RawExpr::NatLiteral(length)))
    };
    let nonvariable = Expr::with_metadata(
        TypedMetadata::resolved(sequence_type(1)),
        RawExpr::Matrix(Matrix {
            rows: 1,
            cols: 1,
            elements: vec![Expr::with_metadata(TypedMetadata::resolved(TypeExpr::Real), RawExpr::NatLiteral(1))],
        }),
    );
    let empty = Expr::with_metadata(
        TypedMetadata::resolved(sequence_type(0)),
        RawExpr::Variable(Variable::new("z")),
    );
    let environment = Environment::default();
    let visitor = DiagonalVisitor::new(&environment);
    assert_eq!(
        visitor.diagonal(&nonvariable),
        Err(ElaborationError::Unsupported("sequence expression cannot be materialized"))
    );
    assert_eq!(visitor.diagonal(&empty), Err(ElaborationError::Empty("diag operand sequence must be nonempty")));
}

#[test]
fn diagonalization_materializes_exactly_the_selected_sequence_elements() {
    for dimension in 1..=3u64 {
        let environment = Environment::default();
        let visitor = DiagonalVisitor::new(&environment);
        let matrix = visitor.diagonal(&sequence_variable("z", dimension)).unwrap();
        assert_eq!(matrix.meta.get_type(), Ok(matrix_type(dimension, dimension)));
        let RawExpr::Matrix(matrix) = &matrix.raw else {
            panic!("diag should give a matrix")
        };
        let n = dimension as usize;
        assert_eq!((matrix.rows, matrix.cols, matrix.elements.len()), (n, n, n * n));
        for row in 0..n {
            for col in 0..n {
                let cell = &matrix.elements[row * n + col];
                if row == col {
                    assert_eq!(latex(cell), format!("z_{{{}}}", row + 1));
                    assert_eq!(cell.meta.get_type(), Ok(TypeExpr::Real));
                } else {
                    assert_eq!(latex(cell), "0");
                    assert_eq!(cell.meta.get_type(), Ok(TypeExpr::Real));
                }
            }
        }
    }
}

#[test]
fn diagonal_requires_a_sequence_of_reals() {
    let environment = Environment::default();
    let visitor = DiagonalVisitor::new(&environment);
    let scalar = typed(TypeExpr::Real, RawExpr::Variable(Variable::new("x")));
    assert_eq!(visitor.diagonal(&scalar), Err(ElaborationError::InvalidOperands("diag operand must be a sequence")));
    let naturals = typed(
        TypeExpr::Sequence(Expr::new(RawExpr::Type(TypeExpr::Nat)), Expr::new(RawExpr::NatLiteral(2))),
        RawExpr::Variable(Variable::new("z")),
    );
    assert_eq!(
        visitor.diagonal(&naturals),
        Err(ElaborationError::InvalidOperands("diag sequence elements must be real scalars"))
    );
}

#[test]
fn sequence_literals_and_maps_list_their_elements() {
    let environment = Environment::default();
    let literal = typed(
        sequence_type(3),
        RawExpr::Finop(Finop::SeqLiteral, vec![natural(1), natural(2), natural(3)]),
    );
    let elements = materialize_sequence(&environment, &literal).unwrap();
    assert_eq!(elements.iter().map(latex).collect::<Vec<_>>(), ["1", "2", "3"]);

    let too_short = typed(sequence_type(4), RawExpr::Finop(Finop::SeqLiteral, vec![natural(1)]));
    assert_eq!(
        materialize_sequence(&environment, &too_short),
        Err(ElaborationError::InvalidOperands("sequence literal length does not match its type"))
    );

    let map = typed(sequence_type(3), RawExpr::Seqop(SeqOp::Mapped, index_range(2, natural(4)), index()));
    let elements = materialize_sequence(&environment, &map).unwrap();
    assert_eq!(elements.iter().map(latex).collect::<Vec<_>>(), ["2", "3", "4"]);

    let mismatched = typed(sequence_type(2), RawExpr::Seqop(SeqOp::Mapped, index_range(2, natural(4)), index()));
    assert_eq!(
        materialize_sequence(&environment, &mismatched),
        Err(ElaborationError::InvalidOperands("map range length does not match its sequence type"))
    );

    let variable = sequence_variable("w", 2);
    let elements = materialize_sequence(&environment, &variable).unwrap();
    assert_eq!(elements.iter().map(latex).collect::<Vec<_>>(), ["w_{1}", "w_{2}"]);
    assert!(matches!(&elements[1].raw, RawExpr::Binop(Binop::SingleSubscript, _, _)));
}

#[test]
fn sequence_sums_do_not_require_sequence_access() {
    let environment = Environment::default();
    let visitor = SequenceVisitor::new(&environment);
    let sum = visitor.sequence(SeqOp::Sum, &index_range(0, natural(2)), &index(), TypeExpr::Nat).unwrap();
    let RawExpr::Finop(Finop::Plus, terms) = &sum.raw else {
        panic!("sequence sum was not expanded")
    };
    assert_eq!(terms.iter().map(latex).collect::<Vec<_>>(), ["0", "1", "2"]);
    assert_eq!(sum.meta.get_type(), Ok(TypeExpr::Nat));

    let single = visitor.sequence(SeqOp::Prod, &index_range(5, natural(5)), &index(), TypeExpr::Nat).unwrap();
    assert_eq!(latex(&single), "5");

    let map = visitor.sequence(SeqOp::Mapped, &index_range(1, natural(1)), &index(), sequence_type(1)).unwrap();
    assert!(matches!(&map.raw, RawExpr::Finop(Finop::SeqLiteral, elements) if elements.len() == 1));

    assert_eq!(
        visitor.sequence(SeqOp::Sum, &index_range(3, natural(2)), &index(), TypeExpr::Nat),
        Err(ElaborationError::InvalidOperands("sequence range must be nonempty"))
    );
}

#[test]
fn sequence_ranges_are_specialized_from_the_natural_assignment() {
    let environment = Environment {
        natural_assignment: vec![(NaturalParameter::Variable(Variable::new("n")), 2)],
    };
    let visitor = SequenceVisitor::new(&environment);
    let upper = typed(TypeExpr::Nat, RawExpr::Variable(Variable::new("n")));
    let body = typed(
        TypeExpr::Real,
        RawExpr::Binop(Binop::SingleSubscript, sequence_variable("z", 2), index()),
    );
    let sum = visitor.sequence(SeqOp::Sum, &index_range(1, upper), &body, TypeExpr::Real).unwrap();
    let RawExpr::Finop(Finop::Plus, terms) = &sum.raw else {
        panic!("sequence sum was not expanded")
    };
    assert_eq!(terms.iter().map(latex).collect::<Vec<_>>(), ["z_{1}", "z_{2}"]);
}

#[test]
fn subscripts_of_sequence_variables_become_element_variables() {
    let environment = Environment::default();
    let visitor = SequenceVisitor::new(&environment);
    let element = visitor.subscript(&sequence_variable("z", 3), &natural(2)).unwrap();
    assert!(matches!(&element.raw, RawExpr::Variable(v) if v == &Variable::new("z_{2}")));
    assert_eq!(element.meta.get_type(), Ok(TypeExpr::Real));
    for outside in [0, 4] {
        assert_eq!(
            visitor.subscript(&sequence_variable("z", 3), &natural(outside)),
            Err(ElaborationError::InvalidOperands("sequence index is outside its one-based bounds"))
        );
    }
    let scalar = typed(TypeExpr::Real, RawExpr::Variable(Variable::new("x")));
    assert_eq!(
        visitor.subscript(&scalar, &natural(1)),
        Err(ElaborationError::InvalidOperands("subscripted variable is not a sequence"))
    );
    let literal = typed(sequence_type(1), RawExpr::Finop(Finop::SeqLiteral, vec![natural(7)]));
    assert_eq!(
        visitor.subscript(&literal, &natural(1)),
        Err(ElaborationError::Unsupported("sequence subscript base must be a variable"))
    );
}

#[test]
fn subscripts_of_sequence_literals_pick_the_element() {
    let environment = Environment::default();
    let visitor = SequenceVisitor::new(&environment);
    let literal = typed(
        sequence_type(3),
        RawExpr::Finop(Finop::SeqLiteral, vec![natural(1), natural(2), natural(3)]),
    );
    assert_eq!(latex(&visitor.materialized_subscript(&literal, &natural(2)).unwrap()), "2");
    assert_eq!(
        visitor.materialized_subscript(&literal, &natural(4)),
        Err(ElaborationError::InvalidOperands("sequence index is outside its one-based bounds"))
    );
}

#[test]
fn memberships_are_decided_by_concrete_types() {
    let environment = Environment::default();
    let visitor = MembershipVisitor::new(&environment);
    let reals = Expr::with_metadata(TypedMetadata::default(), RawExpr::Type(TypeExpr::Real));
    let count = typed(TypeExpr::Nat, RawExpr::Variable(Variable::new("k")));
    let nonnegative = visitor.replacement(&count, &reals, false).unwrap();
    let RawExpr::CmpChain(chain) = &nonnegative.raw else {
        panic!("a natural subject becomes a comparison")
    };
    assert_eq!(latex(&chain.start), "k");
    assert_eq!(chain.assertions.len(), 1);
    assert_eq!(chain.assertions[0].0, Cmp::Ge);
    assert_eq!(latex(&chain.assertions[0].1), "0");

    let square = Expr::with_metadata(
        TypedMetadata::default(),
        RawExpr::Type(TypeExpr::Matrix(natural(2), natural(2))),
    );
    let a = typed(matrix_type(2, 2), RawExpr::Variable(Variable::new("A")));
    let b = typed(matrix_type(2, 3), RawExpr::Variable(Variable::new("B")));
    let holds = visitor.replacement(&a, &square, false).unwrap();
    let RawExpr::CmpChain(chain) = &holds.raw else {
        panic!("a decided membership is a constant")
    };
    assert_eq!(chain.assertions[0].0, Cmp::Eq);
    let fails = visitor.replacement(&b, &square, false).unwrap();
    let RawExpr::CmpChain(chain) = &fails.raw else {
        panic!("a decided membership is a constant")
    };
    assert_eq!(chain.assertions[0].0, Cmp::Ne);
    assert_eq!(
        visitor.replacement(&b, &square, true),
        Err(ElaborationError::Shape("set membership subject has incompatible domain dimensions or type"))
    );
    assert_eq!(
        visitor.replacement(&a, &natural(2), false),
        Err(ElaborationError::InvalidOperands("type membership requires a type expression"))
    );
}

#[test]
fn standalone_map_elaborates_to_a_sequence_literal() {
    let environment = Environment::default();
    let visitor = SequenceVisitor::new(&environment);
    let map = visitor.sequence(SeqOp::Mapped, &index_range(0, natural(2)), &index(), sequence_type(3)).unwrap();
    let RawExpr::Finop(Finop::SeqLiteral, elements) = &map.raw else {
        panic!("standalone map should elaborate to a sequence literal")
    };
    assert_eq!(elements.iter().map(latex).collect::<Vec<_>>(), ["0", "1", "2"]);
}

#[test]
fn sequence_literals_support_subscripts_and_diagonalization() {
    let environment = Environment::default();
    let sequences = SequenceVisitor::new(&environment);
    let literal = typed(
        sequence_type(3),
        RawExpr::Finop(Finop::SeqLiteral, vec![natural(1), natural(2), natural(3)]),
    );
    assert_eq!(latex(&sequences.materialized_subscript(&literal, &natural(2)).unwrap()), "2");

    let diagonals = DiagonalVisitor::new(&environment);
    let pair = typed(
        sequence_type(2),
        RawExpr::Finop(
            Finop::SeqLiteral,
            vec![
                typed(TypeExpr::Real, RawExpr::Variable(Variable::new("a"))),
                typed(TypeExpr::Real, RawExpr::Variable(Variable::new("b"))),
            ],
        ),
    );
    let matrix = diagonals.diagonal(&pair).unwrap();
    let RawExpr::Matrix(matrix) = &matrix.raw else {
        panic!("diag of a sequence literal should elaborate to a matrix")
    };
    assert_eq!(matrix.elements.iter().map(latex).collect::<Vec<_>>(), ["a", "0", "0", "b"]);
}
