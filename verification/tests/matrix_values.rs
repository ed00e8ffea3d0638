use tex_models::concrete::ConcreteLeafVisitor;
use tex_models::elaboration::ElaborationError;
use tex_models::matrix_values::{MatrixVisitor, Value};
use tex_models::type_resolver::{MaybeTyped, TypedMetadata};
use tex_models::{
    Cmp, CmpChain, Environment, Expr, Finop, ImplicitDimension, Matrix, Monop, NaturalParameter, RawExpr, TypeExpr,
    Variable,
};

fn typed(ty: TypeExpr<()>, raw: RawExpr<TypedMetadata>) -> Expr<TypedMetadata> {
    Expr::with_metadata(TypedMetadata::resolved(ty), raw)
}

fn scalar(name: &str) -> Expr<TypedMetadata> {
    typed(TypeExpr::Real, RawExpr::Variable(Variable::new(name)))
}

fn natural(value: u64) -> Expr<TypedMetadata> {
    typed(TypeExpr::Nat, RawExpr::NatLiteral(value))
}

fn matrix_type(rows: u64, cols: u64) -> TypeExpr<()> {
    TypeExpr::Matrix(Expr::new(RawExpr::NatLiteral(rows)), Expr::new(RawExpr::NatLiteral(cols)))
}

fn cells(rows: usize, cols: usize, names: &[&str]) -> Matrix<Expr<TypedMetadata>> {
    Matrix { rows, cols, elements: names.iter().map(|name| scalar(name)).collect() }
}

fn literal(rows: usize, cols: usize, names: &[&str]) -> Expr<TypedMetadata> {
    typed(matrix_type(rows as u64, cols as u64), RawExpr::Matrix(cells(rows, cols, names)))
}

fn latex(expression: &Expr<TypedMetadata>) -> String {
    expression.as_latex().to_string()
}

fn matrix_of(value: Value) -> Matrix<Expr<TypedMetadata>> {
    match value {
        Value::Matrix(matrix) => matrix,
        Value::Scalar(_) => panic!("expected a matrix value"),
    }
}

fn rendered_cells(expression: &Expr<TypedMetadata>) -> Vec<String> {
    let RawExpr::Matrix(matrix) = &expression.raw else {
        panic!("expected a flat matrix")
    };
    matrix.elements.iter().map(latex).collect()
}

#[test]
fn matrix_sums_add_corresponding_cells() {
    let environment = Environment::default();
    let visitor = MatrixVisitor::new(&environment);
    let sum = visitor
        .add_values(Value::Matrix(cells(1, 2, &["a", "b"])), Value::Matrix(cells(1, 2, &["c", "d"])))
        .unwrap();
    let sum = matrix_of(sum);
    assert_eq!((sum.rows, sum.cols), (1, 2));
    assert_eq!(sum.elements.iter().map(latex).collect::<Vec<_>>(), ["a + c", "b + d"]);
    assert!(matches!(
        visitor.add_values(Value::Matrix(cells(1, 2, &["a", "b"])), Value::Matrix(cells(2, 1, &["c", "d"]))),
        Err(ElaborationError::Shape("matrix addition requires equal dimensions"))
    ));
    assert!(matches!(
        visitor.add_values(Value::Scalar(scalar("x")), Value::Matrix(cells(1, 1, &["c"]))),
        Err(ElaborationError::InvalidOperands("scalar-matrix addition is not supported"))
    ));
}

#[test]
fn matrix_products_take_dot_products_of_rows_and_columns() {
    let environment = Environment::default();
    let visitor = MatrixVisitor::new(&environment);
    let product = visitor
        .multiply_values(
            Value::Matrix(cells(2, 2, &["a", "b", "c", "d"])),
            Value::Matrix(cells(2, 1, &["x", "y"])),
        )
        .unwrap();
    let product = matrix_of(product);
    assert_eq!((product.rows, product.cols), (2, 1));
    assert_eq!(product.elements.iter().map(latex).collect::<Vec<_>>(), ["a x + b y", "c x + d y"]);
    assert!(matches!(
        visitor.multiply_values(Value::Matrix(cells(2, 2, &["a", "b", "c", "d"])), Value::Matrix(cells(1, 2, &["x", "y"]))),
        Err(ElaborationError::Shape("matrix multiplication requires compatible dimensions"))
    ));
    let scaled = matrix_of(visitor.multiply_values(Value::Scalar(scalar("s")), Value::Matrix(cells(1, 2, &["a", "b"]))).unwrap());
    assert_eq!(scaled.elements.iter().map(latex).collect::<Vec<_>>(), ["s a", "s b"]);
    let Value::Scalar(both) = visitor.multiply_values(Value::Scalar(natural(2)), Value::Scalar(scalar("x"))).unwrap() else {
        panic!("scalars multiply to a scalar")
    };
    assert_eq!(both.meta.get_type(), Ok(TypeExpr::Real));
}

#[test]
fn transposes_and_negations_rearrange_cells() {
    let environment = Environment::default();
    let visitor = MatrixVisitor::new(&environment);
    let transposed = visitor.transpose(cells(2, 3, &["a", "b", "c", "d", "e", "f"]));
    assert_eq!(transposed.meta.get_type(), Ok(matrix_type(3, 2)));
    assert_eq!(rendered_cells(&transposed), ["a", "d", "b", "e", "c", "f"]);
    let negated = visitor.matrix_negation(cells(1, 2, &["a", "b"]));
    let RawExpr::Matrix(matrix) = &negated.raw else {
        panic!("expected a flat matrix")
    };
    assert!(matrix.elements.iter().all(|cell| matches!(cell.raw, RawExpr::Monop(Monop::Neg, _))));
}

#[test]
fn traces_and_determinants_of_square_literals() {
    let environment = Environment::default();
    let visitor = MatrixVisitor::new(&environment);
    let square = literal(2, 2, &["a", "b", "c", "d"]);
    assert_eq!(latex(&visitor.trace(&square).unwrap()), "a + d");
    let determinant = visitor.determinant(&square).unwrap();
    let RawExpr::Finop(Finop::Plus, terms) = &determinant.raw else {
        panic!("a determinant of a larger matrix is a sum of cofactor terms")
    };
    assert_eq!(terms.len(), 2);
    assert!(matches!(terms[1].raw, RawExpr::Monop(Monop::Neg, _)));
    assert_eq!(latex(&visitor.determinant(&literal(1, 1, &["a"])).unwrap()), "a");
    assert_eq!(
        visitor.trace(&literal(1, 2, &["a", "b"])),
        Err(ElaborationError::Shape("trace requires a square matrix"))
    );
    assert_eq!(visitor.determinant(&scalar("x")), Err(ElaborationError::InvalidOperands("determinant requires a matrix")));
}

#[test]
fn matrix_comparisons_become_cellwise_conjunctions() {
    let environment = Environment::default();
    let visitor = MatrixVisitor::new(&environment);
    let equality = CmpChain {
        start: literal(1, 2, &["a", "b"]),
        assertions: vec![(Cmp::Eq, literal(1, 2, &["c", "d"]))],
    };
    let lowered = visitor.compare_chain(&equality).unwrap().unwrap();
    let RawExpr::Finop(Finop::And, clauses) = &lowered.raw else {
        panic!("matrix equality is a conjunction of cell equalities")
    };
    assert_eq!(clauses.iter().map(latex).collect::<Vec<_>>(), ["a = c", "b = d"]);
    let scalars = CmpChain { start: scalar("x"), assertions: vec![(Cmp::Lt, scalar("y"))] };
    assert!(visitor.compare_chain(&scalars).unwrap().is_none());
    let ordering = CmpChain {
        start: literal(1, 2, &["a", "b"]),
        assertions: vec![(Cmp::Lt, literal(1, 2, &["c", "d"]))],
    };
    assert_eq!(
        visitor.compare_chain(&ordering),
        Err(ElaborationError::InvalidOperands("matrix ordering comparisons are not supported"))
    );
    let mixed = CmpChain { start: scalar("x"), assertions: vec![(Cmp::Eq, literal(1, 2, &["c", "d"]))] };
    assert_eq!(
        visitor.compare_chain(&mixed),
        Err(ElaborationError::InvalidOperands("scalar-matrix comparisons are not supported"))
    );
    let empty = CmpChain { start: scalar("x"), assertions: Vec::new() };
    assert_eq!(
        visitor.compare_chain(&empty),
        Err(ElaborationError::Empty("comparison chain requires at least one assertion"))
    );
}

#[test]
fn quotients_and_casts_unwrap_one_by_one_matrices() {
    let environment = Environment::default();
    let visitor = MatrixVisitor::new(&environment);
    assert!(visitor.divide(&scalar("x"), &scalar("y")).unwrap().is_none());
    let quotient = visitor.divide(&literal(1, 1, &["a"]), &natural(2)).unwrap().unwrap();
    assert!(matches!(&quotient.raw, RawExpr::Binop(tex_models::Binop::Div, _, _)));
    assert_eq!(quotient.meta.get_type(), Ok(TypeExpr::Real));
    assert_eq!(
        visitor.divide(&literal(1, 2, &["a", "b"]), &natural(2)),
        Err(ElaborationError::Shape("matrix division is only supported for 1x1 matrices"))
    );
    let reals = Expr::with_metadata(TypedMetadata::default(), RawExpr::Type(TypeExpr::Real));
    assert_eq!(latex(&visitor.cast(&reals, &literal(1, 1, &["a"])).unwrap()), "a");
    let one_by_one = Expr::with_metadata(TypedMetadata::default(), RawExpr::Type(TypeExpr::Matrix(natural(1), natural(1))));
    let cast = visitor.cast(&one_by_one, &scalar("x")).unwrap();
    assert_eq!(cast.meta.get_type(), Ok(matrix_type(1, 1)));
    let two_by_two = Expr::with_metadata(TypedMetadata::default(), RawExpr::Type(TypeExpr::Matrix(natural(2), natural(2))));
    assert_eq!(
        visitor.cast(&two_by_two, &scalar("x")),
        Err(ElaborationError::Shape("a real scalar can only be cast to a 1x1 matrix"))
    );
}

#[test]
fn finite_sums_fold_matrix_operands() {
    let environment = Environment::default();
    let visitor = MatrixVisitor::new(&environment);
    let operands = vec![literal(1, 2, &["a", "b"]), literal(1, 2, &["c", "d"]), literal(1, 2, &["e", "f"])];
    let sum = visitor.finite(Finop::Plus, &operands).unwrap().unwrap();
    assert_eq!(rendered_cells(&sum), ["a + c + e", "b + d + f"]);
    assert!(visitor.finite(Finop::Plus, &vec![scalar("x"), scalar("y")]).unwrap().is_none());
    assert_eq!(
        visitor.finite(Finop::Times, &Vec::new()),
        Err(ElaborationError::Empty("multiplication requires at least one operand"))
    );
    assert_eq!(
        visitor.finite(Finop::Plus, &vec![literal(1, 2, &["a", "b"]), literal(2, 1, &["c", "d"])]),
        Err(ElaborationError::Shape("matrix addition requires equal dimensions"))
    );
}

#[test]
fn powers_multiply_repeatedly_and_zero_powers_are_identities() {
    let environment = Environment::default();
    let visitor = MatrixVisitor::new(&environment);
    let square = literal(2, 2, &["a", "b", "c", "d"]);
    let squared = visitor.power(&square, &natural(2)).unwrap();
    assert_eq!(rendered_cells(&squared), ["a a + b c", "a b + b d", "c a + d c", "c b + d d"]);
    let identity = visitor.power(&square, &natural(0)).unwrap();
    assert_eq!(rendered_cells(&identity), ["1", "0", "0", "1"]);
    assert_eq!(latex(&visitor.power(&scalar("x"), &natural(0)).unwrap()), "1");
    assert_eq!(
        visitor.power(&literal(1, 2, &["a", "b"]), &natural(2)),
        Err(ElaborationError::Shape("matrix power requires a square matrix"))
    );
}

#[test]
fn concrete_leaves_become_flat_matrices() {
    let rows = ImplicitDimension::from_nonce(7);
    let cols = ImplicitDimension::from_nonce(8);
    let environment = Environment {
        natural_assignment: vec![
            (NaturalParameter::ImplicitDimension(rows), 2),
            (NaturalParameter::ImplicitDimension(cols), 3),
        ],
    };
    let visitor = ConcreteLeafVisitor::new(&environment);
    let identity = visitor
        .replacement(&typed(TypeExpr::Real, RawExpr::IdentityMatrix { dimension: rows }))
        .unwrap()
        .unwrap();
    assert_eq!(rendered_cells(&identity), ["1", "0", "0", "1"]);
    let zero = visitor
        .replacement(&typed(TypeExpr::Real, RawExpr::ZeroMatrix { rows, cols }))
        .unwrap()
        .unwrap();
    assert_eq!(zero.meta.get_type(), Ok(matrix_type(2, 3)));
    assert_eq!(rendered_cells(&zero), ["0"; 6]);
    let basis = visitor
        .replacement(&typed(TypeExpr::Real, RawExpr::StandardBasis { index: natural(2), dimension: cols }))
        .unwrap()
        .unwrap();
    assert_eq!(rendered_cells(&basis), ["0", "1", "0"]);
    let variable = visitor
        .replacement(&typed(matrix_type(2, 2), RawExpr::Variable(Variable::new("A"))))
        .unwrap()
        .unwrap();
    let RawExpr::Matrix(matrix) = &variable.raw else {
        panic!("a matrix variable becomes a matrix of cell variables")
    };
    let names: Vec<String> = matrix
        .elements
        .iter()
        .map(|cell| match &cell.raw {
            RawExpr::Variable(variable) => variable.z3_name(),
            _ => panic!("cells are variables"),
        })
        .collect();
    assert_eq!(names, ["A_{1,1}", "A_{1,2}", "A_{2,1}", "A_{2,2}"]);
    let dimension = visitor.replacement(&typed(TypeExpr::Nat, RawExpr::ImplicitDimension(cols))).unwrap().unwrap();
    assert_eq!(latex(&dimension), "3");
    assert!(visitor.replacement(&scalar("x")).unwrap().is_none());
    let missing = ImplicitDimension::from_nonce(9);
    assert!(matches!(
        visitor.replacement(&typed(TypeExpr::Real, RawExpr::IdentityMatrix { dimension: missing })),
        Err(ElaborationError::Natural(_))
    ));
    assert_eq!(
        visitor.replacement(&typed(TypeExpr::Real, RawExpr::StandardBasis { index: natural(4), dimension: cols })),
        Err(ElaborationError::InvalidOperands("standard basis index is outside its one-based bounds"))
    );
}

#[test]
fn block_matrices_flatten_row_by_row() {
    let environment = Environment::default();
    let visitor = MatrixVisitor::new(&environment);
    let blocks = Matrix {
        rows: 1,
        cols: 2,
        elements: vec![literal(2, 1, &["a", "b"]), literal(2, 2, &["c", "d", "e", "f"])],
    };
    let flat = visitor.flatten_matrix(&blocks).unwrap().unwrap();
    assert_eq!(flat.meta.get_type(), Ok(matrix_type(2, 3)));
    assert_eq!(rendered_cells(&flat), ["a", "c", "d", "b", "e", "f"]);

    let scalars = Matrix { rows: 1, cols: 2, elements: vec![scalar("x"), scalar("y")] };
    assert!(visitor.flatten_matrix(&scalars).unwrap().is_none());

    let uneven = Matrix {
        rows: 1,
        cols: 2,
        elements: vec![literal(2, 1, &["a", "b"]), literal(1, 1, &["c"])],
    };
    assert_eq!(
        visitor.flatten_matrix(&uneven),
        Err(ElaborationError::Shape("blocks in a block-matrix row must have equal heights"))
    );
    let malformed = Matrix { rows: 2, cols: 2, elements: vec![scalar("x")] };
    assert_eq!(visitor.flatten_matrix(&malformed), Err(ElaborationError::InvalidMatrixLiteral));
}

#[test]
fn pending_matrix_operands_are_detected() {
    let environment = Environment::default();
    let visitor = MatrixVisitor::new(&environment);
    let variable = typed(matrix_type(2, 2), RawExpr::Variable(Variable::new("A")));
    assert_eq!(visitor.matrix_operand_pending(&variable), Ok(true));
    assert_eq!(visitor.matrix_operand_pending(&literal(1, 1, &["a"])), Ok(false));
    let transpose = typed(matrix_type(2, 2), RawExpr::Monop(Monop::Transpose, variable));
    assert_eq!(visitor.node_has_pending_matrix_operand(&transpose), Ok(true));
    let sum = typed(TypeExpr::Real, RawExpr::Finop(Finop::Plus, vec![scalar("x"), scalar("y")]));
    assert_eq!(visitor.node_has_pending_matrix_operand(&sum), Ok(false));
}

fn matrix_variable(visitor: &ConcreteLeafVisitor, name: &str, rows: u64, cols: u64) -> Value {
    let cells = visitor
        .replacement(&typed(matrix_type(rows, cols), RawExpr::Variable(Variable::new(name))))
        .unwrap()
        .unwrap();
    let environment = Environment::default();
    MatrixVisitor::new(&environment).value(&cells).unwrap()
}

#[test]
fn matrix_arithmetic_becomes_a_flat_scalar_cell_matrix() {
    let environment = Environment::default();
    let leaves = ConcreteLeafVisitor::new(&environment);
    let arithmetic = MatrixVisitor::new(&environment);
    let a = matrix_variable(&leaves, "A", 2, 2);
    let b = matrix_variable(&leaves, "B", 2, 2);
    let c = matrix_variable(&leaves, "C", 2, 2);
    let product = arithmetic.multiply_values(a, b).unwrap();
    let sum = arithmetic.add_values(product, c).unwrap();
    let Value::Matrix(matrix) = sum else {
        panic!("matrix arithmetic was not elaborated to a matrix value")
    };
    assert_eq!((matrix.rows, matrix.cols, matrix.elements.len()), (2, 2, 4));
    assert!(matrix
        .elements
        .iter()
        .all(|cell| matches!(cell.raw, RawExpr::Finop(Finop::Plus, _)) && !matches!(cell.raw, RawExpr::Matrix(_))));
}

#[test]
fn concrete_shape_errors_are_reported_before_z3_construction() {
    let environment = Environment::default();
    let leaves = ConcreteLeafVisitor::new(&environment);
    let a = matrix_variable(&leaves, "A", 2, 2);
    let b = matrix_variable(&leaves, "B", 1, 2);
    assert!(matches!(
        MatrixVisitor::new(&environment).multiply_values(a, b),
        Err(ElaborationError::Shape("matrix multiplication requires compatible dimensions"))
    ));
}

fn matrix_cells(environment: &Environment, name: &str, rows: u64, cols: u64) -> Expr<TypedMetadata> {
    ConcreteLeafVisitor::new(environment)
        .replacement(&typed(matrix_type(rows, cols), RawExpr::Variable(Variable::new(name))))
        .unwrap()
        .unwrap()
}

#[test]
fn test_non_square_matrix_power_returns_an_error() {
    let environment = Environment { natural_assignment: vec![(NaturalParameter::Variable(Variable::new("n")), 1)] };
    let exponent = typed(TypeExpr::Nat, RawExpr::Variable(Variable::new("n")));
    let a = matrix_cells(&environment, "A", 1, 2);
    assert_eq!(
        MatrixVisitor::new(&environment).power(&a, &exponent),
        Err(ElaborationError::Shape("matrix power requires a square matrix"))
    );
}

#[test]
fn test_invalid_matrix_multiplication_returns_an_error() {
    let environment = Environment::default();
    let operands = vec![matrix_cells(&environment, "A", 2, 2), matrix_cells(&environment, "B", 1, 2)];
    assert_eq!(
        MatrixVisitor::new(&environment).finite(Finop::Times, &operands),
        Err(ElaborationError::Shape("matrix multiplication requires compatible dimensions"))
    );
}

#[test]
fn test_mismatched_matrix_addition_returns_an_error() {
    let environment = Environment::default();
    let operands = vec![matrix_cells(&environment, "A", 1, 2), matrix_cells(&environment, "B", 2, 1)];
    assert_eq!(
        MatrixVisitor::new(&environment).finite(Finop::Plus, &operands),
        Err(ElaborationError::Shape("matrix addition requires equal dimensions"))
    );
}

#[test]
fn test_larger_matrix_division_returns_an_error() {
    let environment = Environment::default();
    let a = matrix_cells(&environment, "A", 1, 2);
    assert_eq!(
        MatrixVisitor::new(&environment).divide(&a, &natural(2)),
        Err(ElaborationError::Shape("matrix division is only supported for 1x1 matrices"))
    );
}

#[test]
fn test_mismatched_matrix_equality_returns_an_error() {
    let environment = Environment::default();
    let chain = CmpChain {
        start: matrix_cells(&environment, "A", 1, 2),
        assertions: vec![(Cmp::Eq, matrix_cells(&environment, "B", 2, 1))],
    };
    assert_eq!(
        MatrixVisitor::new(&environment).compare_chain(&chain),
        Err(ElaborationError::Shape("matrix equality requires equal dimensions"))
    );
}

#[test]
fn test_matrix_ordering_returns_an_error() {
    let environment = Environment::default();
    let chain = CmpChain {
        start: matrix_cells(&environment, "A", 1, 2),
        assertions: vec![(Cmp::Lt, matrix_cells(&environment, "B", 1, 2))],
    };
    assert_eq!(
        MatrixVisitor::new(&environment).compare_chain(&chain),
        Err(ElaborationError::InvalidOperands("matrix ordering comparisons are not supported"))
    );
}

#[test]
fn test_scalar_matrix_comparison_returns_an_error() {
    let environment = Environment::default();
    let chain = CmpChain { start: natural(1), assertions: vec![(Cmp::Eq, matrix_cells(&environment, "A", 1, 2))] };
    assert_eq!(
        MatrixVisitor::new(&environment).compare_chain(&chain),
        Err(ElaborationError::InvalidOperands("scalar-matrix comparisons are not supported"))
    );
}

#[test]
fn test_empty_comparison_chain_returns_an_error() {
    let environment = Environment::default();
    let chain = CmpChain { start: natural(1), assertions: Vec::new() };
    assert_eq!(
        MatrixVisitor::new(&environment).compare_chain(&chain),
        Err(ElaborationError::Empty("comparison chain requires at least one assertion"))
    );
}

#[test]
fn test_empty_finite_operation_returns_an_error() {
    let environment = Environment::default();
    assert_eq!(
        MatrixVisitor::new(&environment).finite(Finop::Plus, &Vec::new()),
        Err(ElaborationError::Empty("addition requires at least one operand"))
    );
}
