//! The matrix arithmetic of elaboration: the value of an operand as a scalar
//! or as a flat matrix of cells, and sums, products, negations, transposes
//! and traces spelled out cell by cell.
use vstd::prelude::*;

use crate::concrete::{flat_matrix, untyped, ElaborationFailure};
use crate::elaboration::ElaborationError;
use crate::type_resolver::{annotation, TypedMetadata};
use crate::view::{type_view, TypeView};
use crate::{Cmp, CmpChain, Environment, Expr, Finop, Matrix, Monop, RawExpr, TypeExpr};

verus! {

/// The value of an operand: a scalar expression, or a matrix of cells.
pub enum Value {
    Scalar(Expr<TypedMetadata>),
    Matrix(Matrix<Expr<TypedMetadata>>),
}

impl Value {
    /// A matrix value holds exactly `rows * cols` cells.
    pub open spec fn well_formed(&self) -> bool {
        match self {
            Value::Matrix(m) => m.well_formed(),
            Value::Scalar(_) => true,
        }
    }
}

/// `e` is the finite operation `op` on `operands`, of type `ty`.
pub open spec fn finop_of(e: Expr<TypedMetadata>, ty: TypeView, op: Finop, operands: Seq<Expr<TypedMetadata>>) -> bool {
    &&& annotation(e) == Some(ty)
    &&& e.node().raw matches RawExpr::Finop(f, xs)
    &&& f == op
    &&& xs@ == operands
}

/// `e` is the unary operation `op` on `operand`, of type `ty`.
pub open spec fn monop_of(e: Expr<TypedMetadata>, ty: TypeView, op: Monop, operand: Expr<TypedMetadata>) -> bool {
    &&& annotation(e) == Some(ty)
    &&& e.node().raw matches RawExpr::Monop(o, x)
    &&& o == op
    &&& x == operand
}

pub open spec fn numeric(t: TypeView) -> bool {
    t == TypeView::Nat || t == TypeView::Int || t == TypeView::Real
}

/// The least numeric type holding two scalars of the recorded types: the
/// naturals, then the integers, then the reals.
pub open spec fn scalar_lub(left: Option<TypeView>, right: Option<TypeView>) -> Result<TypeView, ElaborationFailure> {
    match (left, right) {
        (Some(a), Some(b)) => if a == TypeView::Nat && b == TypeView::Nat {
            Ok(TypeView::Nat)
        } else if (a == TypeView::Nat || a == TypeView::Int) && (b == TypeView::Nat || b == TypeView::Int) {
            Ok(TypeView::Int)
        } else if numeric(a) && numeric(b) {
            Ok(TypeView::Real)
        } else {
            Err(ElaborationFailure::InvalidOperands("operation requires numeric scalar operands"@))
        },
        _ => Err(untyped()),
    }
}

/// The type of a scalar operation on `left` and `right`.
fn scalar_lub_type(left: &Expr<TypedMetadata>, right: &Expr<TypedMetadata>) -> (ty: Result<TypeExpr<()>, ElaborationError>)
    ensures
        match ty {
            Ok(t) => scalar_lub(annotation(*left), annotation(*right)) == Ok::<TypeView, ElaborationFailure>(type_view(t)),
            Err(e) => scalar_lub(annotation(*left), annotation(*right)) == Err::<TypeView, ElaborationFailure>(e.failure()),
        },
{
    let untyped_error = ElaborationError::Type(crate::type_resolver::TypeError::Unsupported("expression has no value type"));
    let l = match &left.meta().0 {
        Some(t) => t,
        None => return Err(untyped_error),
    };
    let r = match &right.meta().0 {
        Some(t) => t,
        None => return Err(untyped_error),
    };
    match (l, r) {
        (TypeExpr::Nat, TypeExpr::Nat) => Ok(TypeExpr::Nat),
        (TypeExpr::Nat, TypeExpr::Int) | (TypeExpr::Int, TypeExpr::Nat) | (TypeExpr::Int, TypeExpr::Int) => Ok(
            TypeExpr::Int,
        ),
        (TypeExpr::Nat, TypeExpr::Real) | (TypeExpr::Int, TypeExpr::Real) | (TypeExpr::Real, TypeExpr::Nat) | (
            TypeExpr::Real,
            TypeExpr::Int,
        ) | (TypeExpr::Real, TypeExpr::Real) => Ok(TypeExpr::Real),
        _ => Err(ElaborationError::InvalidOperands("operation requires numeric scalar operands")),
    }
}

/// The scalar operation `op` on `operands`, of type `ty`.
fn scalar_finop(ty: TypeExpr<()>, op: Finop, operands: Vec<Expr<TypedMetadata>>) -> (e: Expr<TypedMetadata>)
    ensures
        finop_of(e, type_view(ty), op, operands@),
{
    Expr::with_metadata(TypedMetadata::resolved(ty), RawExpr::Finop(op, operands))
}

/// The pair of `a` and `b` as a vector.
fn pair(a: Expr<TypedMetadata>, b: Expr<TypedMetadata>) -> (v: Vec<Expr<TypedMetadata>>)
    ensures
        v@ == seq![a, b],
{
    let mut v = Vec::new();
    v.push(a);
    v.push(b);
    proof {
        assert(v@ =~= seq![a, b]);
    }
    v
}

// ---------------------------------------------------------------------------
// Sums
// ---------------------------------------------------------------------------

/// Why two values cannot be added, if they cannot.
pub open spec fn sum_failure(left: Value, right: Value) -> Option<ElaborationFailure> {
    match (left, right) {
        (Value::Scalar(a), Value::Scalar(b)) => match scalar_lub(annotation(a), annotation(b)) {
            Err(f) => Some(f),
            Ok(_) => None,
        },
        (Value::Matrix(a), Value::Matrix(b)) => if a.rows != b.rows || a.cols != b.cols {
            Some(ElaborationFailure::Shape("matrix addition requires equal dimensions"@))
        } else {
            None
        },
        _ => Some(ElaborationFailure::InvalidOperands("scalar-matrix addition is not supported"@)),
    }
}

/// `result` is the sum of two values: the typed sum of two scalars, or the
/// matrix whose cells are the real sums of the corresponding cells.
pub open spec fn sum_as(left: Value, right: Value, result: Value) -> bool {
    match (left, right, result) {
        (Value::Scalar(a), Value::Scalar(b), Value::Scalar(e)) => match scalar_lub(annotation(a), annotation(b)) {
            Ok(t) => finop_of(e, t, Finop::Plus, seq![a, b]),
            Err(_) => false,
        },
        (Value::Matrix(a), Value::Matrix(b), Value::Matrix(m)) => {
            &&& m.rows == a.rows
            &&& m.cols == a.cols
            &&& m.elements@.len() == a.elements@.len()
            &&& forall|k: int| 0 <= k < m.elements@.len() ==> finop_of(
                #[trigger] m.elements@[k],
                TypeView::Real,
                Finop::Plus,
                seq![a.elements@[k], b.elements@[k]],
            )
        },
        _ => false,
    }
}

// ---------------------------------------------------------------------------
// Products
// ---------------------------------------------------------------------------

/// Why two values cannot be multiplied, if they cannot.
pub open spec fn product_failure(left: Value, right: Value) -> Option<ElaborationFailure> {
    match (left, right) {
        (Value::Scalar(a), Value::Scalar(b)) => match scalar_lub(annotation(a), annotation(b)) {
            Err(f) => Some(f),
            Ok(_) => None,
        },
        (Value::Matrix(a), Value::Matrix(b)) => if a.cols != b.rows {
            Some(ElaborationFailure::Shape("matrix multiplication requires compatible dimensions"@))
        } else if a.cols == 0 {
            Some(ElaborationFailure::Empty("matrix dot product requires at least one term"@))
        } else if a.rows * b.cols > usize::MAX {
            Some(ElaborationFailure::DimensionOverflow)
        } else {
            None
        },
        _ => None,
    }
}

/// `e` is the real dot product of row `row` of `a` and column `col` of `b`:
/// the sum of the real products of their cells, in order.
pub open spec fn dot_cell(
    e: Expr<TypedMetadata>,
    a: Matrix<Expr<TypedMetadata>>,
    b: Matrix<Expr<TypedMetadata>>,
    row: int,
    col: int,
) -> bool {
    &&& annotation(e) == Some(TypeView::Real)
    &&& e.node().raw matches RawExpr::Finop(f, terms)
    &&& f == Finop::Plus
    &&& terms@.len() == a.cols
    &&& forall|i: int| 0 <= i < a.cols ==> finop_of(
        #[trigger] terms@[i],
        TypeView::Real,
        Finop::Times,
        seq![a.elements@[row * a.cols + i], b.elements@[i * b.cols + col]],
    )
}

/// `result` is the product of two values: the typed product of two scalars;
/// a matrix scaled cell by cell, the scalar kept on its side; or the matrix
/// product, whose cell `k` is the dot product of row `k / cols` and column
/// `k % cols`.
pub open spec fn product_as(left: Value, right: Value, result: Value) -> bool {
    match (left, right, result) {
        (Value::Scalar(a), Value::Scalar(b), Value::Scalar(e)) => match scalar_lub(annotation(a), annotation(b)) {
            Ok(t) => finop_of(e, t, Finop::Times, seq![a, b]),
            Err(_) => false,
        },
        (Value::Scalar(s), Value::Matrix(m), Value::Matrix(p)) => {
            &&& p.rows == m.rows
            &&& p.cols == m.cols
            &&& p.elements@.len() == m.elements@.len()
            &&& forall|k: int| 0 <= k < p.elements@.len() ==> finop_of(
                #[trigger] p.elements@[k],
                TypeView::Real,
                Finop::Times,
                seq![s, m.elements@[k]],
            )
        },
        (Value::Matrix(m), Value::Scalar(s), Value::Matrix(p)) => {
            &&& p.rows == m.rows
            &&& p.cols == m.cols
            &&& p.elements@.len() == m.elements@.len()
            &&& forall|k: int| 0 <= k < p.elements@.len() ==> finop_of(
                #[trigger] p.elements@[k],
                TypeView::Real,
                Finop::Times,
                seq![m.elements@[k], s],
            )
        },
        (Value::Matrix(a), Value::Matrix(b), Value::Matrix(p)) => {
            &&& p.rows == a.rows
            &&& p.cols == b.cols
            &&& p.elements@.len() == a.rows * b.cols
            &&& forall|k: int| 0 <= k < p.elements@.len() ==> dot_cell(
                #[trigger] p.elements@[k],
                a,
                b,
                k / (b.cols as int),
                k % (b.cols as int),
            )
        },
        _ => false,
    }
}

// ---------------------------------------------------------------------------
// Operand values
// ---------------------------------------------------------------------------

/// Why an operand has no value, if it has none: a matrix must already be a
/// flat matrix of cells, and a scalar must be numeric.
pub open spec fn value_failure(e: Expr<TypedMetadata>) -> Option<ElaborationFailure> {
    match annotation(e) {
        None => Some(untyped()),
        Some(TypeView::Matrix(_, _)) => if e.node().raw is Matrix {
            None
        } else {
            Some(ElaborationFailure::Unsupported("matrix expression remains unmaterialized"@))
        },
        Some(t) => if numeric(t) {
            None
        } else {
            Some(ElaborationFailure::InvalidOperands("operation requires numeric operands"@))
        },
    }
}

/// `v` is the value of the operand `e`: its cells, for a matrix, and `e`
/// itself for a scalar.
pub open spec fn value_of(e: Expr<TypedMetadata>, v: Value) -> bool {
    match v {
        Value::Matrix(m) => {
            &&& annotation(e) matches Some(TypeView::Matrix(_, _))
            &&& e.node().raw matches RawExpr::Matrix(x)
            &&& x.rows == m.rows
            &&& x.cols == m.cols
            &&& x.elements@ == m.elements@
        },
        Value::Scalar(s) => {
            &&& s == e
            &&& annotation(e) matches Some(t)
            &&& numeric(t)
        },
    }
}

/// A matrix literal holds exactly `rows * cols` cells.
pub open spec fn literal_well_formed(e: Expr<TypedMetadata>) -> bool {
    e.node().raw matches RawExpr::Matrix(m) ==> m.well_formed()
}

/// Evaluates matrix arithmetic for a concrete environment.
pub struct MatrixVisitor<'a> {
    pub environment: &'a Environment,
}

impl<'a> MatrixVisitor<'a> {
    pub fn new(environment: &'a Environment) -> (visitor: Self)
        ensures
            visitor.environment == environment,
    {
        MatrixVisitor { environment }
    }

    /// The value of an operand.
    pub fn value(&self, expression: &Expr<TypedMetadata>) -> (result: Result<Value, ElaborationError>)
        ensures
            match result {
                Ok(v) => value_failure(*expression) is None && value_of(*expression, v) && (literal_well_formed(
                    *expression,
                ) ==> v.well_formed()),
                Err(e) => value_failure(*expression) == Some(e.failure()),
            },
    {
        match &expression.meta().0 {
            None => Err(ElaborationError::Type(crate::type_resolver::TypeError::Unsupported("expression has no value type"))),
            Some(TypeExpr::Matrix(_, _)) => match expression.raw() {
                RawExpr::Matrix(matrix) => Ok(Value::Matrix(share_matrix(matrix))),
                _ => Err(ElaborationError::Unsupported("matrix expression remains unmaterialized")),
            },
            Some(TypeExpr::Nat) | Some(TypeExpr::Int) | Some(TypeExpr::Real) => Ok(Value::Scalar(expression.share())),
            Some(_) => Err(ElaborationError::InvalidOperands("operation requires numeric operands")),
        }
    }

    /// The negation of every cell of a matrix.
    pub fn matrix_negation(&self, matrix: Matrix<Expr<TypedMetadata>>) -> (result: Expr<TypedMetadata>)
        ensures
            exists|cells: Seq<Expr<TypedMetadata>>|
                #[trigger] flat_matrix(result, matrix.rows, matrix.cols, cells) && cells.len()
                    == matrix.elements@.len() && forall|k: int|
                    0 <= k < cells.len() ==> monop_of(#[trigger] cells[k], TypeView::Real, Monop::Neg, matrix.elements@[k]),
    {
        let mut cells: Vec<Expr<TypedMetadata>> = Vec::new();
        let mut i: usize = 0;
        while i < matrix.elements.len()
            invariant
                i <= matrix.elements.len(),
                cells@.len() == i,
                forall|k: int| 0 <= k < i ==> monop_of(#[trigger] cells@[k], TypeView::Real, Monop::Neg, matrix.elements@[k]),
            decreases matrix.elements.len() - i,
        {
            let cell = Expr::with_metadata(
                TypedMetadata::resolved(TypeExpr::Real),
                RawExpr::Monop(Monop::Neg, matrix.elements[i].share()),
            );
            cells.push(cell);
            i = i + 1;
        }
        let ghost listed = cells@;
        let result = crate::concrete::matrix_expression(matrix.rows, matrix.cols, cells);
        proof {
            assert(flat_matrix(result, matrix.rows, matrix.cols, listed));
        }
        result
    }

    /// The transpose of a matrix: cell `k` of the `cols` by `rows` result
    /// is the cell of row `k % rows` and column `k / rows` of the matrix.
    pub fn transpose(&self, matrix: Matrix<Expr<TypedMetadata>>) -> (result: Expr<TypedMetadata>)
        requires
            matrix.well_formed(),
        ensures
            exists|cells: Seq<Expr<TypedMetadata>>|
                #[trigger] flat_matrix(result, matrix.cols, matrix.rows, cells) && cells.len() == matrix.rows
                    * matrix.cols && forall|k: int|
                    0 <= k < cells.len() ==> #[trigger] cells[k] == matrix.elements@[(k % (matrix.rows as int))
                        * matrix.cols + k / (matrix.rows as int)],
    {
        let ghost rows = matrix.rows as int;
        let mut cells: Vec<Expr<TypedMetadata>> = Vec::new();
        let mut col: usize = 0;
        while col < matrix.cols
            invariant
                matrix.well_formed(),
                rows == matrix.rows,
                col <= matrix.cols,
                cells@.len() == col * rows,
                forall|k: int| 0 <= k < cells@.len() ==> #[trigger] cells@[k] == matrix.elements@[(k % rows)
                    * matrix.cols + k / rows],
            decreases matrix.cols - col,
        {
            let mut row: usize = 0;
            while row < matrix.rows
                invariant
                    matrix.well_formed(),
                    rows == matrix.rows,
                    col < matrix.cols,
                    row <= matrix.rows,
                    cells@.len() == col * rows + row,
                    forall|k: int| 0 <= k < cells@.len() ==> #[trigger] cells@[k] == matrix.elements@[(k % rows)
                        * matrix.cols + k / rows],
                decreases matrix.rows - row,
            {
                proof {
                    vstd::arithmetic::div_mod::lemma_fundamental_div_mod_converse(
                        cells@.len() as int,
                        rows,
                        col as int,
                        row as int,
                    );
                }
                cells.push(matrix.at(row, col).share());
                row = row + 1;
            }
            proof {
                assert(col * rows + rows == (col + 1) * rows) by (nonlinear_arith);
            }
            col = col + 1;
        }
        proof {
            assert(cells@.len() == matrix.rows * matrix.cols) by (nonlinear_arith)
                requires
                    cells@.len() == matrix.cols * rows,
                    rows == matrix.rows,
            ;
        }
        let ghost listed = cells@;
        let result = crate::concrete::matrix_expression(matrix.cols, matrix.rows, cells);
        proof {
            assert(flat_matrix(result, matrix.cols, matrix.rows, listed));
        }
        result
    }

    /// The sum of two values.
    pub fn add_values(&self, left: Value, right: Value) -> (result: Result<Value, ElaborationError>)
        requires
            left.well_formed(),
            right.well_formed(),
        ensures
            match result {
                Ok(v) => sum_failure(left, right) is None && sum_as(left, right, v) && v.well_formed(),
                Err(e) => sum_failure(left, right) == Some(e.failure()),
            },
    {
        match (left, right) {
            (Value::Scalar(a), Value::Scalar(b)) => {
                let ty = match scalar_lub_type(&a, &b) {
                    Ok(t) => t,
                    Err(e) => return Err(e),
                };
                Ok(Value::Scalar(scalar_finop(ty, Finop::Plus, pair(a, b))))
            },
            (Value::Matrix(a), Value::Matrix(b)) => {
                if a.rows != b.rows || a.cols != b.cols {
                    return Err(ElaborationError::Shape("matrix addition requires equal dimensions"));
                }
                let mut cells: Vec<Expr<TypedMetadata>> = Vec::new();
                let mut i: usize = 0;
                while i < a.elements.len()
                    invariant
                        a.elements@.len() == b.elements@.len(),
                        i <= a.elements.len(),
                        cells@.len() == i,
                        forall|k: int| 0 <= k < i ==> finop_of(
                            #[trigger] cells@[k],
                            TypeView::Real,
                            Finop::Plus,
                            seq![a.elements@[k], b.elements@[k]],
                        ),
                    decreases a.elements.len() - i,
                {
                    let sum = scalar_finop(TypeExpr::Real, Finop::Plus, pair(a.elements[i].share(), b.elements[i].share()));
                    cells.push(sum);
                    i = i + 1;
                }
                Ok(Value::Matrix(Matrix { rows: a.rows, cols: a.cols, elements: cells }))
            },
            _ => Err(ElaborationError::InvalidOperands("scalar-matrix addition is not supported")),
        }
    }

    /// The product of two values.
    pub fn multiply_values(&self, left: Value, right: Value) -> (result: Result<Value, ElaborationError>)
        requires
            left.well_formed(),
            right.well_formed(),
        ensures
            match result {
                Ok(v) => product_failure(left, right) is None && product_as(left, right, v) && v.well_formed(),
                Err(e) => product_failure(left, right) == Some(e.failure()),
            },
    {
        match (left, right) {
            (Value::Scalar(a), Value::Scalar(b)) => {
                let ty = match scalar_lub_type(&a, &b) {
                    Ok(t) => t,
                    Err(e) => return Err(e),
                };
                Ok(Value::Scalar(scalar_finop(ty, Finop::Times, pair(a, b))))
            },
            (Value::Scalar(s), Value::Matrix(m)) => {
                let mut cells: Vec<Expr<TypedMetadata>> = Vec::new();
                let mut i: usize = 0;
                while i < m.elements.len()
                    invariant
                        i <= m.elements.len(),
                        cells@.len() == i,
                        forall|k: int| 0 <= k < i ==> finop_of(
                            #[trigger] cells@[k],
                            TypeView::Real,
                            Finop::Times,
                            seq![s, m.elements@[k]],
                        ),
                    decreases m.elements.len() - i,
                {
                    cells.push(scalar_finop(TypeExpr::Real, Finop::Times, pair(s.share(), m.elements[i].share())));
                    i = i + 1;
                }
                Ok(Value::Matrix(Matrix { rows: m.rows, cols: m.cols, elements: cells }))
            },
            (Value::Matrix(m), Value::Scalar(s)) => {
                let mut cells: Vec<Expr<TypedMetadata>> = Vec::new();
                let mut i: usize = 0;
                while i < m.elements.len()
                    invariant
                        i <= m.elements.len(),
                        cells@.len() == i,
                        forall|k: int| 0 <= k < i ==> finop_of(
                            #[trigger] cells@[k],
                            TypeView::Real,
                            Finop::Times,
                            seq![m.elements@[k], s],
                        ),
                    decreases m.elements.len() - i,
                {
                    cells.push(scalar_finop(TypeExpr::Real, Finop::Times, pair(m.elements[i].share(), s.share())));
                    i = i + 1;
                }
                Ok(Value::Matrix(Matrix { rows: m.rows, cols: m.cols, elements: cells }))
            },
            (Value::Matrix(a), Value::Matrix(b)) => {
                if a.cols != b.rows {
                    return Err(ElaborationError::Shape("matrix multiplication requires compatible dimensions"));
                }
                if a.cols == 0 {
                    return Err(ElaborationError::Empty("matrix dot product requires at least one term"));
                }
                if a.rows.checked_mul(b.cols).is_none() {
                    return Err(ElaborationError::DimensionOverflow);
                }
                let ghost width = b.cols as int;
                let mut cells: Vec<Expr<TypedMetadata>> = Vec::new();
                let mut row: usize = 0;
                while row < a.rows
                    invariant
                        a.well_formed(),
                        b.well_formed(),
                        a.cols == b.rows,
                        width == b.cols,
                        row <= a.rows,
                        cells@.len() == row * width,
                        forall|k: int| 0 <= k < cells@.len() ==> dot_cell(#[trigger] cells@[k], a, b, k / width, k % width),
                    decreases a.rows - row,
                {
                    let mut col: usize = 0;
                    while col < b.cols
                        invariant
                            a.well_formed(),
                            b.well_formed(),
                            a.cols == b.rows,
                            width == b.cols,
                            row < a.rows,
                            col <= b.cols,
                            cells@.len() == row * width + col,
                            forall|k: int| 0 <= k < cells@.len() ==> dot_cell(#[trigger] cells@[k], a, b, k / width, k % width),
                        decreases b.cols - col,
                    {
                        let mut terms: Vec<Expr<TypedMetadata>> = Vec::new();
                        let mut inner: usize = 0;
                        while inner < a.cols
                            invariant
                                a.well_formed(),
                                b.well_formed(),
                                a.cols == b.rows,
                                row < a.rows,
                                col < b.cols,
                                inner <= a.cols,
                                terms@.len() == inner,
                                forall|i: int| 0 <= i < inner ==> finop_of(
                                    #[trigger] terms@[i],
                                    TypeView::Real,
                                    Finop::Times,
                                    seq![a.elements@[row * a.cols + i], b.elements@[i * b.cols + col]],
                                ),
                            decreases a.cols - inner,
                        {
                            let term = scalar_finop(
                                TypeExpr::Real,
                                Finop::Times,
                                pair(a.at(row, inner).share(), b.at(inner, col).share()),
                            );
                            terms.push(term);
                            inner = inner + 1;
                        }
                        let cell = scalar_finop(TypeExpr::Real, Finop::Plus, terms);
                        proof {
                            vstd::arithmetic::div_mod::lemma_fundamental_div_mod_converse(
                                cells@.len() as int,
                                width,
                                row as int,
                                col as int,
                            );
                        }
                        cells.push(cell);
                        col = col + 1;
                    }
                    proof {
                        assert(row * width + width == (row + 1) * width) by (nonlinear_arith);
                    }
                    row = row + 1;
                }
                Ok(Value::Matrix(Matrix { rows: a.rows, cols: b.cols, elements: cells }))
            },
        }
    }

    /// The expression of a value: the scalar itself, or the flat matrix of
    /// the cells typed by its literal dimensions.
    pub fn value_expression(&self, value: Value) -> (result: Expr<TypedMetadata>)
        ensures
            match value {
                Value::Scalar(e) => result == e,
                Value::Matrix(m) => flat_matrix(result, m.rows, m.cols, m.elements@),
            },
    {
        match value {
            Value::Scalar(e) => e,
            Value::Matrix(m) => crate::concrete::matrix_expression(m.rows, m.cols, m.elements),
        }
    }
}

/// The same matrix, its cells shared.
fn share_matrix(matrix: &Matrix<Expr<TypedMetadata>>) -> (copy: Matrix<Expr<TypedMetadata>>)
    ensures
        copy.rows == matrix.rows,
        copy.cols == matrix.cols,
        copy.elements@ == matrix.elements@,
{
    let mut elements: Vec<Expr<TypedMetadata>> = Vec::new();
    let mut i: usize = 0;
    while i < matrix.elements.len()
        invariant
            i <= matrix.elements.len(),
            elements@ == matrix.elements@.take(i as int),
        decreases matrix.elements.len() - i,
    {
        elements.push(matrix.elements[i].share());
        i = i + 1;
        proof {
            assert(elements@ =~= matrix.elements@.take(i as int));
        }
    }
    proof {
        assert(matrix.elements@.take(matrix.elements.len() as int) =~= matrix.elements@);
    }
    Matrix { rows: matrix.rows, cols: matrix.cols, elements }
}


// ---------------------------------------------------------------------------
// Comparison chains
// ---------------------------------------------------------------------------

/// `e` is the Boolean comparison `a op b`.
pub open spec fn comparison_of(e: Expr<TypedMetadata>, a: Expr<TypedMetadata>, op: Cmp, b: Expr<TypedMetadata>) -> bool {
    &&& annotation(e) == Some(TypeView::Bool)
    &&& e.node().raw matches RawExpr::CmpChain(c)
    &&& c.start == a
    &&& c.assertions@ == seq![(op, b)]
}

/// Whether an operand has a matrix type.
pub open spec fn matrix_typed(e: Expr<TypedMetadata>) -> bool {
    annotation(e) matches Some(TypeView::Matrix(_, _))
}

/// The scalar an operand stands for in a comparison: a numeric scalar
/// itself, or the one cell of a one-by-one matrix literal; nothing for
/// another matrix.
pub open spec fn scalar_side(e: Expr<TypedMetadata>) -> Option<Expr<TypedMetadata>> {
    if matrix_typed(e) {
        match e.node().raw {
            RawExpr::Matrix(m) => if m.rows == 1 && m.cols == 1 && m.elements@.len() == 1 {
                Some(m.elements@[0])
            } else {
                None
            },
            _ => None,
        }
    } else {
        Some(e)
    }
}

/// The cells of a matrix literal.
pub open spec fn literal_cells(e: Expr<TypedMetadata>) -> Seq<Expr<TypedMetadata>> {
    match e.node().raw {
        RawExpr::Matrix(m) => m.elements@,
        _ => Seq::empty(),
    }
}

/// The dimensions of a matrix literal.
pub open spec fn literal_shape(e: Expr<TypedMetadata>) -> (usize, usize) {
    match e.node().raw {
        RawExpr::Matrix(m) => (m.rows, m.cols),
        _ => (0, 0),
    }
}

/// Why the comparison `a op b` cannot be elaborated, if it cannot: both
/// sides must be typed; when a side is a matrix, both must have values, and
/// they must be two scalars, or two matrices of equal dimensions compared by
/// equality or inequality.
#[verifier::opaque]
pub open spec fn link_failure(a: Expr<TypedMetadata>, op: Cmp, b: Expr<TypedMetadata>) -> Option<ElaborationFailure> {
    if annotation(a) is None || annotation(b) is None {
        Some(untyped())
    } else if !matrix_typed(a) && !matrix_typed(b) {
        None
    } else if value_failure(a) is Some {
        value_failure(a)
    } else if value_failure(b) is Some {
        value_failure(b)
    } else {
        match (scalar_side(a), scalar_side(b)) {
            (Some(_), Some(_)) => None,
            (None, None) => if op != Cmp::Eq && op != Cmp::Ne {
                Some(ElaborationFailure::InvalidOperands("matrix ordering comparisons are not supported"@))
            } else if literal_shape(a) != literal_shape(b) {
                Some(ElaborationFailure::Shape("matrix equality requires equal dimensions"@))
            } else {
                None
            },
            _ => Some(ElaborationFailure::InvalidOperands("scalar-matrix comparisons are not supported"@)),
        }
    }
}

/// `clause` is the comparison `a op b` elaborated: unchanged between
/// scalars; between the scalars a one-by-one matrix stands for; and between
/// matrices, the conjunction (for equality) or disjunction (for inequality)
/// of the comparisons of corresponding cells.
#[verifier::opaque]
pub open spec fn link_clause(a: Expr<TypedMetadata>, op: Cmp, b: Expr<TypedMetadata>, clause: Expr<TypedMetadata>) -> bool {
    match (scalar_side(a), scalar_side(b)) {
        (Some(x), Some(y)) => comparison_of(clause, x, op, y),
        (None, None) => {
            let cells_a = literal_cells(a);
            let cells_b = literal_cells(b);
            &&& annotation(clause) == Some(TypeView::Bool)
            &&& clause.node().raw matches RawExpr::Finop(f, cells)
            &&& f == (if op == Cmp::Eq { Finop::And } else { Finop::Or })
            &&& cells@.len() == if cells_a.len() <= cells_b.len() { cells_a.len() } else { cells_b.len() }
            &&& forall|k: int| 0 <= k < cells@.len() ==> comparison_of(#[trigger] cells@[k], cells_a[k], op, cells_b[k])
        },
        _ => false,
    }
}

/// The left operand of link `j` of a chain: the start, then each right
/// operand in turn.
pub open spec fn link_left(start: Expr<TypedMetadata>, links: Seq<(Cmp, Expr<TypedMetadata>)>, j: int) -> Expr<TypedMetadata> {
    if j == 0 { start } else { links[j - 1].1 }
}

/// The failure of the first link that fails.
pub open spec fn chain_links_failure(start: Expr<TypedMetadata>, links: Seq<(Cmp, Expr<TypedMetadata>)>) -> Option<ElaborationFailure>
    decreases links.len(),
{
    if links.len() == 0 {
        None
    } else {
        match chain_links_failure(start, links.drop_last()) {
            Some(f) => Some(f),
            None => link_failure(link_left(start, links, links.len() - 1), links.last().0, links.last().1),
        }
    }
}

/// Why a comparison chain cannot be elaborated, if it cannot.
pub open spec fn chain_failure(chain: CmpChain<TypedMetadata>) -> Option<ElaborationFailure> {
    if chain.assertions@.len() == 0 {
        Some(ElaborationFailure::Empty("comparison chain requires at least one assertion"@))
    } else {
        chain_links_failure(chain.start, chain.assertions@)
    }
}

/// Whether some link compares a matrix.
pub open spec fn links_have_matrix(start: Expr<TypedMetadata>, links: Seq<(Cmp, Expr<TypedMetadata>)>) -> bool
    decreases links.len(),
{
    links.len() > 0 && (links_have_matrix(start, links.drop_last()) || matrix_typed(
        link_left(start, links, links.len() - 1),
    ) || matrix_typed(links.last().1))
}

/// Whether some link of the chain compares a matrix.
pub open spec fn chain_has_matrix(chain: CmpChain<TypedMetadata>) -> bool {
    links_have_matrix(chain.start, chain.assertions@)
}

/// `clauses` are the elaborated links of the chain, in order.
pub open spec fn chain_clauses(chain: CmpChain<TypedMetadata>, clauses: Seq<Expr<TypedMetadata>>) -> bool {
    &&& clauses.len() == chain.assertions@.len()
    &&& forall|j: int| 0 <= j < clauses.len() ==> link_clause(
        link_left(chain.start, chain.assertions@, j),
        chain.assertions@[j].0,
        chain.assertions@[j].1,
        #[trigger] clauses[j],
    )
}

/// `result` is the elaborated chain: its one clause, or the conjunction of
/// its clauses.
pub open spec fn chain_as(chain: CmpChain<TypedMetadata>, result: Expr<TypedMetadata>) -> bool {
    exists|clauses: Seq<Expr<TypedMetadata>>|
        #[trigger] chain_clauses(chain, clauses) && if clauses.len() == 1 {
            result == clauses[0]
        } else {
            finop_of(result, TypeView::Bool, Finop::And, clauses)
        }
}

proof fn lemma_chain_as(chain: CmpChain<TypedMetadata>, clauses: Seq<Expr<TypedMetadata>>, result: Expr<TypedMetadata>)
    requires
        chain_clauses(chain, clauses),
        clauses.len() == 1 ==> result == clauses[0],
        clauses.len() != 1 ==> finop_of(result, TypeView::Bool, Finop::And, clauses),
    ensures
        chain_as(chain, result),
{
}

proof fn lemma_chain_failure_extends(start: Expr<TypedMetadata>, links: Seq<(Cmp, Expr<TypedMetadata>)>, m: int)
    requires
        0 <= m <= links.len(),
        chain_links_failure(start, links.take(m)) is Some,
    ensures
        chain_links_failure(start, links) == chain_links_failure(start, links.take(m)),
    decreases links.len() - m,
{
    if m == links.len() {
        assert(links.take(m) =~= links);
    } else {
        assert(links.drop_last().take(m) =~= links.take(m));
        lemma_chain_failure_extends(start, links.drop_last(), m);
    }
}

proof fn lemma_chain_links_failure_prefix(start: Expr<TypedMetadata>, links: Seq<(Cmp, Expr<TypedMetadata>)>, i: int)
    requires
        0 <= i < links.len(),
        chain_links_failure(start, links.take(i)) is None,
    ensures
        chain_links_failure(start, links.take(i + 1)) == link_failure(link_left(start, links, i), links[i].0, links[i].1),
{
    assert(links.take(i + 1).drop_last() =~= links.take(i));
    assert(link_left(start, links.take(i + 1), i) == link_left(start, links, i));
}

/// The comparison `a op b`, a Boolean.
fn comparison(a: Expr<TypedMetadata>, op: Cmp, b: Expr<TypedMetadata>) -> (e: Expr<TypedMetadata>)
    ensures
        comparison_of(e, a, op, b),
{
    let assertions = vec![(op, b)];
    proof {
        assert(assertions@ =~= seq![(op, b)]);
    }
    Expr::with_metadata(TypedMetadata::resolved(TypeExpr::Bool), RawExpr::CmpChain(CmpChain { start: a, assertions }))
}

/// Whether a node records a matrix type.
fn is_matrix_typed(e: &Expr<TypedMetadata>) -> (b: bool)
    ensures
        b == matrix_typed(*e),
{
    match &e.meta().0 {
        Some(TypeExpr::Matrix(_, _)) => true,
        _ => false,
    }
}

/// The scalar that a value stands for in a comparison.
fn scalarize(value: Value) -> (side: Result<Expr<TypedMetadata>, Matrix<Expr<TypedMetadata>>>)
    ensures
        match (value, side) {
            (Value::Scalar(e), Ok(x)) => x == e,
            (Value::Matrix(m), Ok(x)) => m.rows == 1 && m.cols == 1 && m.elements@.len() == 1 && x == m.elements@[0],
            (Value::Matrix(m), Err(n)) => !(m.rows == 1 && m.cols == 1 && m.elements@.len() == 1) && n == m,
            _ => false,
        },
{
    match value {
        Value::Scalar(e) => Ok(e),
        Value::Matrix(mut m) => if m.rows == 1 && m.cols == 1 && m.elements.len() == 1 {
            Ok(m.elements.pop().unwrap())
        } else {
            Err(m)
        },
    }
}

impl<'a> MatrixVisitor<'a> {
    /// The elaboration of a link `a op b` in which a side is a matrix.
    fn matrix_link(&self, a: &Expr<TypedMetadata>, op: Cmp, b: &Expr<TypedMetadata>) -> (result: Result<
        Expr<TypedMetadata>,
        ElaborationError,
    >)
        requires
            annotation(*a) is Some,
            annotation(*b) is Some,
            matrix_typed(*a) || matrix_typed(*b),
        ensures
            match result {
                Ok(clause) => link_failure(*a, op, *b) is None && link_clause(*a, op, *b, clause),
                Err(e) => link_failure(*a, op, *b) == Some(e.failure()),
            },
    {
        proof {
            reveal(link_failure);
            reveal(link_clause);
        }
        let left = match self.value(a) {
            Ok(v) => v,
            Err(e) => return Err(e),
        };
        let right = match self.value(b) {
            Ok(v) => v,
            Err(e) => return Err(e),
        };
        match (scalarize(left), scalarize(right)) {
            (Ok(x), Ok(y)) => Ok(comparison(x, op, y)),
            (Err(l), Err(r)) => {
                if op != Cmp::Eq && op != Cmp::Ne {
                    return Err(ElaborationError::InvalidOperands("matrix ordering comparisons are not supported"));
                }
                if l.rows != r.rows || l.cols != r.cols {
                    return Err(ElaborationError::Shape("matrix equality requires equal dimensions"));
                }
                let count = if l.elements.len() <= r.elements.len() { l.elements.len() } else { r.elements.len() };
                let mut cells: Vec<Expr<TypedMetadata>> = Vec::new();
                let mut i: usize = 0;
                while i < count
                    invariant
                        count <= l.elements.len(),
                        count <= r.elements.len(),
                        i <= count,
                        cells@.len() == i,
                        forall|k: int| 0 <= k < i ==> comparison_of(#[trigger] cells@[k], l.elements@[k], op, r.elements@[k]),
                    decreases count - i,
                {
                    cells.push(comparison(l.elements[i].share(), op, r.elements[i].share()));
                    i = i + 1;
                }
                let joined = if op == Cmp::Eq { Finop::And } else { Finop::Or };
                Ok(scalar_finop(TypeExpr::Bool, joined, cells))
            },
            _ => Err(ElaborationError::InvalidOperands("scalar-matrix comparisons are not supported")),
        }
    }

    /// A comparison chain with matrix operands, compared cell by cell;
    /// nothing when no operand is a matrix.
    #[verifier::rlimit(30)]
    pub fn compare_chain(&self, chain: &CmpChain<TypedMetadata>) -> (result: Result<
        Option<Expr<TypedMetadata>>,
        ElaborationError,
    >)
        ensures
            match result {
                Ok(None) => chain_failure(*chain) is None && !chain_has_matrix(*chain),
                Ok(Some(e)) => chain_failure(*chain) is None && chain_has_matrix(*chain) && chain_as(*chain, e),
                Err(e) => chain_failure(*chain) == Some(e.failure()),
            },
    {
        if chain.assertions.len() == 0 {
            return Err(ElaborationError::Empty("comparison chain requires at least one assertion"));
        }
        let ghost links = chain.assertions@;
        let mut clauses: Vec<Expr<TypedMetadata>> = Vec::new();
        let mut changed = false;
        let mut i: usize = 0;
        while i < chain.assertions.len()
            invariant
                links == chain.assertions@,
                i <= links.len(),
                chain_links_failure(chain.start, links.take(i as int)) is None,
                clauses@.len() == i,
                forall|j: int| 0 <= j < i ==> link_clause(
                    link_left(chain.start, links, j),
                    links[j].0,
                    links[j].1,
                    #[trigger] clauses@[j],
                ),
                changed == links_have_matrix(chain.start, links.take(i as int)),
            decreases links.len() - i,
        {
            let previous = if i == 0 { &chain.start } else { &chain.assertions[i - 1].1 };
            let (op, current) = (chain.assertions[i].0, &chain.assertions[i].1);
            proof {
                assert(*previous == link_left(chain.start, links, i as int));
                lemma_chain_links_failure_prefix(chain.start, links, i as int);
            }
            let untyped_error = ElaborationError::Type(crate::type_resolver::TypeError::Unsupported("expression has no value type"));
            if previous.meta().0.is_none() || current.meta().0.is_none() {
                proof {
                    reveal(link_failure);
                    lemma_chain_failure_extends(chain.start, links, i + 1);
                }
                return Err(untyped_error);
            }
            let clause = if !is_matrix_typed(previous) && !is_matrix_typed(current) {
                let clause = comparison(previous.share(), op, current.share());
                proof {
                    reveal(link_failure);
                    reveal(link_clause);
                    assert(scalar_side(*previous) == Some(*previous));
                    assert(scalar_side(*current) == Some(*current));
                    assert(link_clause(*previous, op, *current, clause));
                }
                clause
            } else {
                changed = true;
                match self.matrix_link(previous, op, current) {
                    Ok(clause) => clause,
                    Err(e) => {
                        proof {
                            lemma_chain_failure_extends(chain.start, links, i + 1);
                        }
                        return Err(e);
                    },
                }
            };
            let ghost before = clauses@;
            clauses.push(clause);
            proof {
                assert forall|j: int| 0 <= j < i + 1 implies link_clause(
                    link_left(chain.start, links, j),
                    links[j].0,
                    links[j].1,
                    #[trigger] clauses@[j],
                ) by {
                    if j < i {
                        assert(clauses@[j] == before[j]);
                    }
                }
                assert(links.take(i + 1).drop_last() =~= links.take(i as int));
                assert(link_left(chain.start, links.take(i + 1), i as int) == *previous);
            }
            i = i + 1;
        }
        proof {
            assert(links.take(links.len() as int) =~= links);
        }
        if !changed {
            return Ok(None);
        }
        let ghost listed = clauses@;
        if clauses.len() == 1 {
            let only = clauses.pop().unwrap();
            proof {
                lemma_chain_as(*chain, listed, only);
            }
            return Ok(Some(only));
        }
        let conjunction = scalar_finop(TypeExpr::Bool, Finop::And, clauses);
        proof {
            lemma_chain_as(*chain, listed, conjunction);
        }
        Ok(Some(conjunction))
    }
}


// ---------------------------------------------------------------------------
// Traces, quotients and casts
// ---------------------------------------------------------------------------

/// Why the trace of an operand cannot be taken, if it cannot: the operand
/// must be a nonempty square matrix literal.
pub open spec fn trace_failure(e: Expr<TypedMetadata>) -> Option<ElaborationFailure> {
    if value_failure(e) is Some {
        value_failure(e)
    } else if !matrix_typed(e) {
        Some(ElaborationFailure::InvalidOperands("trace requires a matrix"@))
    } else if literal_shape(e).0 == 0 {
        Some(ElaborationFailure::Empty("trace requires a nonempty matrix"@))
    } else if literal_shape(e).0 != literal_shape(e).1 {
        Some(ElaborationFailure::Shape("trace requires a square matrix"@))
    } else {
        None
    }
}

/// `result` is the real sum of the diagonal cells of the matrix literal `e`.
pub open spec fn trace_as(e: Expr<TypedMetadata>, result: Expr<TypedMetadata>) -> bool {
    let (rows, cols) = literal_shape(e);
    &&& annotation(result) == Some(TypeView::Real)
    &&& result.node().raw matches RawExpr::Finop(f, terms)
    &&& f == Finop::Plus
    &&& terms@.len() == rows
    &&& forall|i: int| 0 <= i < rows ==> #[trigger] terms@[i] == literal_cells(e)[i * cols + i]
}

/// Why `left / right` cannot be elaborated, if it cannot: both operands
/// must have values, and a matrix operand must be one by one; the scalars
/// divided must be numeric.
pub open spec fn quotient_failure(left: Expr<TypedMetadata>, right: Expr<TypedMetadata>) -> Option<ElaborationFailure> {
    if value_failure(left) is Some {
        value_failure(left)
    } else if value_failure(right) is Some {
        value_failure(right)
    } else if !matrix_typed(left) && !matrix_typed(right) {
        None
    } else {
        match (scalar_side(left), scalar_side(right)) {
            (Some(x), Some(y)) => match scalar_lub(annotation(x), annotation(y)) {
                Err(f) => Some(f),
                Ok(_) => None,
            },
            _ => Some(ElaborationFailure::Shape("matrix division is only supported for 1x1 matrices"@)),
        }
    }
}

/// `result` is `left / right` elaborated: nothing between scalars, and
/// otherwise the typed quotient of the scalars that the operands stand for.
pub open spec fn quotient_as(left: Expr<TypedMetadata>, right: Expr<TypedMetadata>, result: Option<Expr<TypedMetadata>>) -> bool {
    if !matrix_typed(left) && !matrix_typed(right) {
        result is None
    } else {
        match (scalar_side(left), scalar_side(right), result) {
            (Some(x), Some(y), Some(e)) => {
                &&& scalar_lub(annotation(x), annotation(y)) matches Ok(t)
                &&& annotation(e) == Some(t)
                &&& e.node().raw matches RawExpr::Binop(op, a, b)
                &&& op == crate::Binop::Div
                &&& a == x
                &&& b == y
            },
            _ => false,
        }
    }
}

/// Why a cast of `value` to the type written by `target` cannot be
/// elaborated, if it cannot: the target must be a type, the value must have
/// a value, and only casts between a real scalar and a real one-by-one matrix
/// are supported.
pub open spec fn cast_failure(env: Seq<(crate::view::ParameterView, u64)>, target: Expr<TypedMetadata>, value: Expr<TypedMetadata>) -> Option<
    ElaborationFailure,
> {
    match target@ {
        crate::view::ExprView::Type(t) => if value_failure(value) is Some {
            value_failure(value)
        } else {
            match t {
                TypeView::Real => if matrix_typed(value) {
                    match scalar_side(value) {
                        Some(_) => None,
                        None => Some(
                            ElaborationFailure::InvalidOperands(
                                "a cast to real requires a real scalar or real-valued 1x1 matrix"@,
                            ),
                        ),
                    }
                } else if annotation(value) == Some(TypeView::Real) {
                    None
                } else {
                    Some(ElaborationFailure::InvalidOperands("a cast to real requires a real scalar or real-valued 1x1 matrix"@))
                },
                TypeView::Matrix(rows, cols) => if !matrix_typed(value) && annotation(value) == Some(TypeView::Real) {
                    match crate::concrete::natural_under(*rows, env) {
                        Err(f) => Some(f),
                        Ok(r) => match crate::concrete::natural_under(*cols, env) {
                            Err(f) => Some(f),
                            Ok(c) => if r == 1 && c == 1 {
                                None
                            } else {
                                Some(ElaborationFailure::Shape("a real scalar can only be cast to a 1x1 matrix"@))
                            },
                        },
                    }
                } else {
                    Some(ElaborationFailure::InvalidOperands("a cast to a matrix requires a real scalar"@))
                },
                _ => Some(ElaborationFailure::Unsupported("only real and 1x1 matrix casts are supported"@)),
            }
        },
        _ => Some(ElaborationFailure::InvalidOperands("cast target must be a type expression"@)),
    }
}

/// `result` is the cast elaborated: to the reals, the real scalar itself or
/// the cell of a one-by-one matrix; to a matrix, the one-by-one matrix of
/// the real scalar.
pub open spec fn cast_as(target: Expr<TypedMetadata>, value: Expr<TypedMetadata>, result: Expr<TypedMetadata>) -> bool {
    match target@ {
        crate::view::ExprView::Type(TypeView::Real) => scalar_side(value) == Some(result),
        crate::view::ExprView::Type(TypeView::Matrix(_, _)) => flat_matrix(result, 1, 1, seq![value]),
        _ => false,
    }
}

impl<'a> MatrixVisitor<'a> {
    /// The trace of a square matrix operand.
    pub fn trace(&self, expression: &Expr<TypedMetadata>) -> (result: Result<Expr<TypedMetadata>, ElaborationError>)
        requires
            literal_well_formed(*expression),
        ensures
            match result {
                Ok(e) => trace_failure(*expression) is None && trace_as(*expression, e),
                Err(e) => trace_failure(*expression) == Some(e.failure()),
            },
    {
        let matrix = match self.value(expression) {
            Ok(Value::Matrix(m)) => m,
            Ok(Value::Scalar(_)) => return Err(ElaborationError::InvalidOperands("trace requires a matrix")),
            Err(e) => return Err(e),
        };
        if matrix.rows == 0 {
            return Err(ElaborationError::Empty("trace requires a nonempty matrix"));
        }
        if matrix.rows != matrix.cols {
            return Err(ElaborationError::Shape("trace requires a square matrix"));
        }
        let mut terms: Vec<Expr<TypedMetadata>> = Vec::new();
        let mut i: usize = 0;
        while i < matrix.rows
            invariant
                matrix.well_formed(),
                matrix.rows == matrix.cols,
                i <= matrix.rows,
                terms@.len() == i,
                forall|j: int| 0 <= j < i ==> #[trigger] terms@[j] == matrix.elements@[j * matrix.cols + j],
            decreases matrix.rows - i,
        {
            terms.push(matrix.at(i, i).share());
            i = i + 1;
        }
        Ok(scalar_finop(TypeExpr::Real, Finop::Plus, terms))
    }

    /// `left / right` with a matrix operand, which must be one by one;
    /// nothing between scalars.
    pub fn divide(&self, left: &Expr<TypedMetadata>, right: &Expr<TypedMetadata>) -> (result: Result<
        Option<Expr<TypedMetadata>>,
        ElaborationError,
    >)
        ensures
            match result {
                Ok(r) => quotient_failure(*left, *right) is None && quotient_as(*left, *right, r),
                Err(e) => quotient_failure(*left, *right) == Some(e.failure()),
            },
    {
        let l = match self.value(left) {
            Ok(v) => v,
            Err(e) => return Err(e),
        };
        let r = match self.value(right) {
            Ok(v) => v,
            Err(e) => return Err(e),
        };
        if let (Value::Scalar(_), Value::Scalar(_)) = (&l, &r) {
            return Ok(None);
        }
        let x = match scalarize(l) {
            Ok(x) => x,
            Err(_) => return Err(ElaborationError::Shape("matrix division is only supported for 1x1 matrices")),
        };
        let y = match scalarize(r) {
            Ok(y) => y,
            Err(_) => return Err(ElaborationError::Shape("matrix division is only supported for 1x1 matrices")),
        };
        let ty = match scalar_lub_type(&x, &y) {
            Ok(t) => t,
            Err(e) => return Err(e),
        };
        Ok(Some(Expr::with_metadata(TypedMetadata::resolved(ty), RawExpr::Binop(crate::Binop::Div, x, y))))
    }

    /// A cast between a real scalar and a real one-by-one matrix.
    pub fn cast(&self, target: &Expr<TypedMetadata>, value: &Expr<TypedMetadata>) -> (result: Result<
        Expr<TypedMetadata>,
        ElaborationError,
    >)
        ensures
            match result {
                Ok(e) => cast_failure(crate::concrete::assigned(self.environment), *target, *value) is None && cast_as(
                    *target,
                    *value,
                    e,
                ),
                Err(e) => cast_failure(crate::concrete::assigned(self.environment), *target, *value) == Some(e.failure()),
            },
    {
        let target_type = match target.raw() {
            RawExpr::Type(t) => t,
            _ => {
                proof {
                    assert(!(target@ is Type));
                }
                return Err(ElaborationError::InvalidOperands("cast target must be a type expression"));
            },
        };
        proof {
            assert(target@ == crate::view::ExprView::Type(type_view(*target_type)));
        }
        let v = match self.value(value) {
            Ok(v) => v,
            Err(e) => return Err(e),
        };
        match target_type {
            TypeExpr::Real => match v {
                Value::Scalar(x) => {
                    if let Some(TypeExpr::Real) = &x.meta().0 {
                        Ok(x)
                    } else {
                        Err(ElaborationError::InvalidOperands("a cast to real requires a real scalar or real-valued 1x1 matrix"))
                    }
                },
                Value::Matrix(m) => match scalarize(Value::Matrix(m)) {
                    Ok(x) => Ok(x),
                    Err(_) => Err(
                        ElaborationError::InvalidOperands("a cast to real requires a real scalar or real-valued 1x1 matrix"),
                    ),
                },
            },
            TypeExpr::Matrix(rows, cols) => match v {
                Value::Scalar(x) => {
                    if let Some(TypeExpr::Real) = &x.meta().0 {
                        let r = match crate::concrete::natural_of(self.environment, rows) {
                            Ok(n) => n,
                            Err(e) => return Err(e),
                        };
                        let c = match crate::concrete::natural_of(self.environment, cols) {
                            Ok(n) => n,
                            Err(e) => return Err(e),
                        };
                        if r == 1 && c == 1 {
                            let mut cells: Vec<Expr<TypedMetadata>> = Vec::new();
                            cells.push(x);
                            proof {
                                assert(cells@ =~= seq![*value]);
                            }
                            Ok(crate::concrete::matrix_expression(1, 1, cells))
                        } else {
                            Err(ElaborationError::Shape("a real scalar can only be cast to a 1x1 matrix"))
                        }
                    } else {
                        Err(ElaborationError::InvalidOperands("a cast to a matrix requires a real scalar"))
                    }
                },
                Value::Matrix(_) => Err(ElaborationError::InvalidOperands("a cast to a matrix requires a real scalar")),
            },
            _ => Err(ElaborationError::Unsupported("only real and 1x1 matrix casts are supported")),
        }
    }
}


// ---------------------------------------------------------------------------
// Determinants
// ---------------------------------------------------------------------------

/// The column of the full matrix that column `c` of a minor without column
/// `col` comes from.
pub open spec fn skipping(c: int, col: int) -> int {
    if c < col { c } else { c + 1 }
}

/// The cells of the minor of a square matrix of side `n` without its first
/// row and its column `col`.
pub open spec fn minor_cells(cells: Seq<Expr<TypedMetadata>>, n: int, col: int) -> Seq<Expr<TypedMetadata>> {
    Seq::new(
        ((n - 1) * (n - 1)) as nat,
        |k: int| cells[(k / (n - 1) + 1) * n + skipping(k % (n - 1), col)],
    )
}

/// `e` is the determinant of the square matrix of side `n` with the given
/// cells, expanded along the first row: the cell itself for a matrix of one
/// cell, and otherwise the real sum, over the columns, of the real product of
/// the first-row cell and the determinant of its minor, negated in odd
/// columns.
pub open spec fn determinant_as(cells: Seq<Expr<TypedMetadata>>, n: nat, e: Expr<TypedMetadata>) -> bool
    decreases n, 1nat,
{
    if n <= 1 {
        e == cells[0]
    } else {
        &&& annotation(e) == Some(TypeView::Real)
        &&& e.node().raw matches RawExpr::Finop(f, terms)
        &&& f == Finop::Plus
        &&& terms@.len() == n
        &&& forall|col: int| 0 <= col < n ==> cofactor_term(#[trigger] terms@[col], cells, n, col)
    }
}

/// `t` is a real negation.
pub open spec fn negation_node(t: Expr<TypedMetadata>) -> bool {
    &&& annotation(t) == Some(TypeView::Real)
    &&& t.node().raw matches RawExpr::Monop(op, _)
    &&& op == Monop::Neg
}

/// `t` is the term of column `col` in the expansion of a determinant.
pub open spec fn cofactor_term(t: Expr<TypedMetadata>, cells: Seq<Expr<TypedMetadata>>, n: nat, col: int) -> bool
    decreases n, 0nat,
{
    if n <= 1 {
        false
    } else {
        let product = if col % 2 == 0 {
            t
        } else {
            match t.node().raw {
                RawExpr::Monop(_, x) => x,
                _ => t,
            }
        };
        &&& col % 2 == 1 ==> negation_node(t)
        &&& annotation(product) == Some(TypeView::Real)
        &&& product.node().raw matches RawExpr::Finop(f, factors)
        &&& f == Finop::Times
        &&& factors@.len() == 2
        &&& factors@[0] == cells[col]
        &&& determinant_as(minor_cells(cells, n as int, col), (n - 1) as nat, factors@[1])
    }
}

/// Why the determinant of an operand cannot be taken, if it cannot: the
/// operand must be a nonempty square matrix literal.
pub open spec fn determinant_failure(e: Expr<TypedMetadata>) -> Option<ElaborationFailure> {
    if value_failure(e) is Some {
        value_failure(e)
    } else if !matrix_typed(e) {
        Some(ElaborationFailure::InvalidOperands("determinant requires a matrix"@))
    } else if literal_shape(e).0 == 0 {
        Some(ElaborationFailure::Empty("determinant requires a nonempty matrix"@))
    } else if literal_shape(e).0 != literal_shape(e).1 {
        Some(ElaborationFailure::Shape("determinant requires a square matrix"@))
    } else {
        None
    }
}

/// The determinant of a nonempty square matrix, expanded along the first
/// row.
fn determinant_expression(matrix: &Matrix<Expr<TypedMetadata>>) -> (e: Expr<TypedMetadata>)
    requires
        matrix.well_formed(),
        matrix.rows == matrix.cols,
        matrix.rows >= 1,
    ensures
        determinant_as(matrix.elements@, matrix.rows as nat, e),
    decreases matrix.rows,
{
    let n = matrix.rows;
    if n == 1 {
        return matrix.at(0, 0).share();
    }
    let ghost cells = matrix.elements@;
    let ghost side = n as int;
    let ghost inner = (n - 1) as int;
    let mut terms: Vec<Expr<TypedMetadata>> = Vec::new();
    let mut col: usize = 0;
    while col < n
        invariant
            matrix.well_formed(),
            matrix.rows == matrix.cols,
            n == matrix.rows,
            n >= 2,
            cells == matrix.elements@,
            side == n,
            inner == n - 1,
            col <= n,
            terms@.len() == col,
            forall|c: int| 0 <= c < col ==> cofactor_term(#[trigger] terms@[c], cells, n as nat, c),
        decreases n - col,
    {
        let mut minor: Vec<Expr<TypedMetadata>> = Vec::new();
        let mut row: usize = 1;
        while row < n
            invariant
                matrix.well_formed(),
                matrix.rows == matrix.cols,
                n == matrix.rows,
                n >= 2,
                cells == matrix.elements@,
                side == n,
                inner == n - 1,
                col < n,
                1 <= row <= n,
                minor@.len() == (row - 1) * inner,
                forall|k: int| 0 <= k < minor@.len() ==> #[trigger] minor@[k] == cells[(k / inner + 1) * side + skipping(k % inner, col as int)],
            decreases n - row,
        {
            let mut minor_col: usize = 0;
            while minor_col < n
                invariant
                    matrix.well_formed(),
                    matrix.rows == matrix.cols,
                    n == matrix.rows,
                    n >= 2,
                    cells == matrix.elements@,
                    side == n,
                    inner == n - 1,
                    col < n,
                    1 <= row < n,
                    minor_col <= n,
                    minor@.len() == (row - 1) * inner + (if minor_col <= col { minor_col as int } else { minor_col - 1 }),
                    forall|k: int| 0 <= k < minor@.len() ==> #[trigger] minor@[k] == cells[(k / inner + 1) * side + skipping(k % inner, col as int)],
                decreases n - minor_col,
            {
                if minor_col != col {
                    let ghost position = if minor_col < col { minor_col as int } else { minor_col - 1 };
                    proof {
                        vstd::arithmetic::div_mod::lemma_fundamental_div_mod_converse(
                            minor@.len() as int,
                            inner,
                            row - 1,
                            position,
                        );
                        assert(skipping(position, col as int) == minor_col);
                    }
                    minor.push(matrix.at(row, minor_col).share());
                }
                minor_col = minor_col + 1;
            }
            proof {
                assert((row - 1) * inner + inner == row * inner) by (nonlinear_arith);
            }
            row = row + 1;
        }
        proof {
            assert(minor@.len() == inner * inner) by (nonlinear_arith)
                requires
                    minor@.len() == (n - 1) * inner,
                    inner == n - 1,
            ;
            assert(minor@ =~= minor_cells(cells, side, col as int));
        }
        let minor_matrix = Matrix { rows: n - 1, cols: n - 1, elements: minor };
        proof {
            assert(minor_matrix.well_formed());
        }
        let sub = determinant_expression(&minor_matrix);
        let product = scalar_finop(TypeExpr::Real, Finop::Times, pair(matrix.at(0, col).share(), sub));
        let term = if col % 2 == 0 {
            product
        } else {
            Expr::with_metadata(TypedMetadata::resolved(TypeExpr::Real), RawExpr::Monop(Monop::Neg, product))
        };
        proof {
            assert(cofactor_term(term, cells, n as nat, col as int));
        }
        terms.push(term);
        col = col + 1;
    }
    scalar_finop(TypeExpr::Real, Finop::Plus, terms)
}

impl<'a> MatrixVisitor<'a> {
    /// The determinant of a square matrix operand.
    pub fn determinant(&self, expression: &Expr<TypedMetadata>) -> (result: Result<Expr<TypedMetadata>, ElaborationError>)
        requires
            literal_well_formed(*expression),
        ensures
            match result {
                Ok(e) => determinant_failure(*expression) is None && determinant_as(
                    literal_cells(*expression),
                    literal_shape(*expression).0 as nat,
                    e,
                ),
                Err(e) => determinant_failure(*expression) == Some(e.failure()),
            },
    {
        let matrix = match self.value(expression) {
            Ok(Value::Matrix(m)) => m,
            Ok(Value::Scalar(_)) => return Err(ElaborationError::InvalidOperands("determinant requires a matrix")),
            Err(e) => return Err(e),
        };
        if matrix.rows == 0 {
            return Err(ElaborationError::Empty("determinant requires a nonempty matrix"));
        }
        if matrix.rows != matrix.cols {
            return Err(ElaborationError::Shape("determinant requires a square matrix"));
        }
        Ok(determinant_expression(&matrix))
    }
}


// ---------------------------------------------------------------------------
// Finite sums and products, and powers
// ---------------------------------------------------------------------------

/// The shape of a value: the recorded type of a scalar, or the dimensions
/// of a matrix.
pub enum Shape {
    Scalar(Option<TypeView>),
    Matrix(usize, usize),
}

pub open spec fn value_shape(v: Value) -> Shape {
    match v {
        Value::Scalar(e) => Shape::Scalar(annotation(e)),
        Value::Matrix(m) => Shape::Matrix(m.rows, m.cols),
    }
}

/// The shape of the value of an operand that has one.
pub open spec fn operand_shape(e: Expr<TypedMetadata>) -> Shape {
    if matrix_typed(e) {
        Shape::Matrix(literal_shape(e).0, literal_shape(e).1)
    } else {
        Shape::Scalar(annotation(e))
    }
}

/// The shape of the sum (`op` is `Plus`) or product (otherwise) of values of
/// two shapes, or why it cannot be formed.
pub open spec fn combined_shape(op: Finop, a: Shape, b: Shape) -> Result<Shape, ElaborationFailure> {
    match (a, b) {
        (Shape::Scalar(s), Shape::Scalar(t)) => match scalar_lub(s, t) {
            Ok(u) => Ok(Shape::Scalar(Some(u))),
            Err(f) => Err(f),
        },
        (Shape::Matrix(r, c), Shape::Matrix(r2, c2)) => if op == Finop::Plus {
            if r != r2 || c != c2 {
                Err(ElaborationFailure::Shape("matrix addition requires equal dimensions"@))
            } else {
                Ok(Shape::Matrix(r, c))
            }
        } else if c != r2 {
            Err(ElaborationFailure::Shape("matrix multiplication requires compatible dimensions"@))
        } else if c == 0 {
            Err(ElaborationFailure::Empty("matrix dot product requires at least one term"@))
        } else if r * c2 > usize::MAX {
            Err(ElaborationFailure::DimensionOverflow)
        } else {
            Ok(Shape::Matrix(r, c2))
        },
        (Shape::Scalar(_), Shape::Matrix(r, c)) | (Shape::Matrix(r, c), Shape::Scalar(_)) => if op == Finop::Plus {
            Err(ElaborationFailure::InvalidOperands("scalar-matrix addition is not supported"@))
        } else {
            Ok(Shape::Matrix(r, c))
        },
    }
}

/// `c` is the sum or product of `a` and `b`.
pub open spec fn combined_as(op: Finop, a: Value, b: Value, c: Value) -> bool {
    if op == Finop::Plus { sum_as(a, b, c) } else { product_as(a, b, c) }
}

proof fn lemma_combined_shape(op: Finop, a: Value, b: Value, c: Value)
    requires
        op == Finop::Plus ==> sum_failure(a, b) is None && sum_as(a, b, c),
        op != Finop::Plus ==> product_failure(a, b) is None && product_as(a, b, c),
    ensures
        combined_shape(op, value_shape(a), value_shape(b)) == Ok::<Shape, ElaborationFailure>(value_shape(c)),
{
}

proof fn lemma_combined_failure(op: Finop, a: Value, b: Value)
    ensures
        op == Finop::Plus ==> sum_failure(a, b) == combined_shape(op, value_shape(a), value_shape(b)).err(),
        op != Finop::Plus ==> product_failure(a, b) == combined_shape(op, value_shape(a), value_shape(b)).err(),
{
}

/// The shape of the fold of the operands' values by `op`, left to right,
/// or the first failure: of an operand's value, or of a step.
pub open spec fn fold_shape(op: Finop, es: Seq<Expr<TypedMetadata>>) -> Result<Shape, ElaborationFailure>
    decreases es.len(),
{
    if es.len() <= 1 {
        match value_failure(es[0]) {
            Some(f) => Err(f),
            None => Ok(operand_shape(es[0])),
        }
    } else {
        match fold_shape(op, es.drop_last()) {
            Err(f) => Err(f),
            Ok(acc) => match value_failure(es.last()) {
                Some(f) => Err(f),
                None => combined_shape(op, acc, operand_shape(es.last())),
            },
        }
    }
}

/// Whether a finite sum or product involves a matrix.
pub open spec fn any_matrix_typed(es: Seq<Expr<TypedMetadata>>) -> bool {
    exists|i: int| 0 <= i < es.len() && matrix_typed(#[trigger] es[i])
}

/// Why the finite operation `op` on `es` cannot be elaborated, if it cannot:
/// a sum or a product needs an operand, and a sum or product that involves a
/// matrix needs every step of its fold to succeed.
pub open spec fn finite_failure(op: Finop, es: Seq<Expr<TypedMetadata>>) -> Option<ElaborationFailure> {
    if es.len() == 0 {
        if op == Finop::Plus {
            Some(ElaborationFailure::Empty("addition requires at least one operand"@))
        } else if op == Finop::Times {
            Some(ElaborationFailure::Empty("multiplication requires at least one operand"@))
        } else {
            None
        }
    } else if !(op == Finop::Plus || op == Finop::Times) || !any_matrix_typed(es) {
        None
    } else {
        fold_shape(op, es).err()
    }
}

/// `accs` are the partial folds of the operand values `operands` of `es`.
pub open spec fn folded(op: Finop, es: Seq<Expr<TypedMetadata>>, accs: Seq<Value>, operands: Seq<Value>) -> bool {
    &&& es.len() >= 1
    &&& accs.len() == es.len()
    &&& operands.len() == es.len()
    &&& forall|i: int| 0 <= i < es.len() ==> value_of(es[i], #[trigger] operands[i])
    &&& accs[0] == operands[0]
    &&& forall|i: int| 1 <= i < es.len() ==> combined_as(op, accs[i - 1], operands[i], #[trigger] accs[i])
}

/// `e` is the expression of the value `v`.
pub open spec fn expression_of(v: Value, e: Expr<TypedMetadata>) -> bool {
    match v {
        Value::Scalar(x) => e == x,
        Value::Matrix(m) => flat_matrix(e, m.rows, m.cols, m.elements@),
    }
}

/// `result` holds the expression of `v`.
pub open spec fn expression_result(v: Value, result: Option<Expr<TypedMetadata>>) -> bool {
    match result {
        Some(e) => expression_of(v, e),
        None => false,
    }
}

/// `result` is the finite operation elaborated: nothing unless it is a sum
/// or a product involving a matrix, and otherwise the expression of the
/// fold of its operands' values.
pub open spec fn finite_as(op: Finop, es: Seq<Expr<TypedMetadata>>, result: Option<Expr<TypedMetadata>>) -> bool {
    if !(op == Finop::Plus || op == Finop::Times) || !any_matrix_typed(es) {
        result is None
    } else {
        exists|accs: Seq<Value>, operands: Seq<Value>|
            #[trigger] folded(op, es, accs, operands) && expression_result(accs.last(), result)
    }
}

/// The same value, its cells shared.
fn share_value(v: &Value) -> (copy: Value)
    ensures
        match (*v, copy) {
            (Value::Scalar(a), Value::Scalar(b)) => a == b,
            (Value::Matrix(a), Value::Matrix(b)) => a.rows == b.rows && a.cols == b.cols && a.elements@ == b.elements@,
            _ => false,
        },
{
    match v {
        Value::Scalar(e) => Value::Scalar(e.share()),
        Value::Matrix(m) => Value::Matrix(share_matrix(m)),
    }
}

impl<'a> MatrixVisitor<'a> {
    /// The sum or product of the operands' values, left to right, when it
    /// involves a matrix; nothing for another finite operation.
    pub fn finite(&self, op: Finop, expressions: &Vec<Expr<TypedMetadata>>) -> (result: Result<
        Option<Expr<TypedMetadata>>,
        ElaborationError,
    >)
        requires
            forall|i: int| 0 <= i < expressions@.len() ==> literal_well_formed(#[trigger] expressions@[i]),
        ensures
            match result {
                Ok(r) => finite_failure(op, expressions@) is None && finite_as(op, expressions@, r),
                Err(e) => finite_failure(op, expressions@) == Some(e.failure()),
            },
    {
        let ghost es = expressions@;
        if expressions.len() == 0 {
            return match op {
                Finop::Plus => Err(ElaborationError::Empty("addition requires at least one operand")),
                Finop::Times => Err(ElaborationError::Empty("multiplication requires at least one operand")),
                _ => Ok(None),
            };
        }
        let supported = match op {
            Finop::Plus | Finop::Times => true,
            _ => false,
        };
        let mut any_matrix = false;
        let mut j: usize = 0;
        while j < expressions.len()
            invariant
                es == expressions@,
                j <= es.len(),
                any_matrix == exists|i: int| 0 <= i < j && matrix_typed(#[trigger] es[i]),
            decreases es.len() - j,
        {
            if is_matrix_typed(&expressions[j]) {
                any_matrix = true;
            }
            j = j + 1;
        }
        if !supported || !any_matrix {
            return Ok(None);
        }
        let first = match self.value(&expressions[0]) {
            Ok(v) => v,
            Err(e) => {
                proof {
                    lemma_fold_shape_extends(op, es, 1);
                    assert(es.take(1).len() == 1 && es.take(1)[0] == es[0]);
                }
                return Err(e);
            },
        };
        let ghost mut accs: Seq<Value> = seq![first];
        let ghost mut operands: Seq<Value> = seq![first];
        let mut acc = share_value(&first);
        proof {
            assert(es.take(1).len() == 1 && es.take(1)[0] == es[0]);
            assert(folded(op, es.take(1), accs, operands));
        }
        let mut i: usize = 1;
        while i < expressions.len()
            invariant
                es == expressions@,
                forall|k: int| 0 <= k < es.len() ==> literal_well_formed(#[trigger] es[k]),
                op == Finop::Plus || op == Finop::Times,
                any_matrix_typed(es),
                1 <= i <= es.len(),
                folded(op, es.take(i as int), accs, operands),
                fold_shape(op, es.take(i as int)) == Ok::<Shape, ElaborationFailure>(value_shape(acc)),
                value_shape(acc) == value_shape(accs.last()),
                match (acc, accs.last()) {
                    (Value::Scalar(a), Value::Scalar(b)) => a == b,
                    (Value::Matrix(a), Value::Matrix(b)) => a.rows == b.rows && a.cols == b.cols && a.elements@
                        == b.elements@,
                    _ => false,
                },
                acc.well_formed(),
            decreases es.len() - i,
        {
            proof {
                assert(es.take(i + 1).drop_last() =~= es.take(i as int));
            }
            let next = match self.value(&expressions[i]) {
                Ok(v) => v,
                Err(e) => {
                    proof {
                        lemma_fold_shape_extends(op, es, i + 1);
                    }
                    return Err(e);
                },
            };
            let ghost previous = acc;
            let combined = if op == Finop::Plus {
                self.add_values(acc, share_value(&next))
            } else {
                self.multiply_values(acc, share_value(&next))
            };
            acc = match combined {
                Ok(v) => v,
                Err(e) => {
                    proof {
                        lemma_combined_failure(op, previous, next);
                        lemma_fold_shape_extends(op, es, i + 1);
                    }
                    return Err(e);
                },
            };
            proof {
                lemma_combined_shape(op, previous, next, acc);
                accs = accs.push(acc);
                operands = operands.push(next);
                assert(folded(op, es.take(i + 1), accs, operands));
            }
            i = i + 1;
        }
        proof {
            assert(es.take(es.len() as int) =~= es);
        }
        Ok(Some(self.value_expression(acc)))
    }
}

proof fn lemma_fold_shape_extends(op: Finop, es: Seq<Expr<TypedMetadata>>, m: int)
    requires
        1 <= m <= es.len(),
        fold_shape(op, es.take(m)) is Err,
    ensures
        fold_shape(op, es) == fold_shape(op, es.take(m)),
    decreases es.len() - m,
{
    if m == es.len() {
        assert(es.take(m) =~= es);
    } else {
        assert(es.drop_last().take(m) =~= es.take(m));
        lemma_fold_shape_extends(op, es.drop_last(), m);
    }
}


/// `e` is the literal `value` of type `ty`.
pub open spec fn typed_literal(e: Expr<TypedMetadata>, ty: TypeView, value: u64) -> bool {
    &&& e.node().raw == RawExpr::<TypedMetadata>::NatLiteral(value)
    &&& annotation(e) == Some(ty)
}

/// Whether some cell of a matrix records the real type.
pub open spec fn has_real_cell(m: Matrix<Expr<TypedMetadata>>) -> bool {
    exists|k: int| 0 <= k < m.elements@.len() && annotation(#[trigger] m.elements@[k]) == Some(TypeView::Real)
}

/// `e` is the identity matrix of the dimensions of `m`: ones on the
/// diagonal and zeros elsewhere, real when a cell of `m` is real and natural
/// otherwise.
pub open spec fn identity_like(m: Matrix<Expr<TypedMetadata>>, e: Expr<TypedMetadata>) -> bool {
    let ty = if has_real_cell(m) { TypeView::Real } else { TypeView::Nat };
    let cells = crate::concrete::matrix_cells(e);
    &&& flat_matrix(e, m.rows, m.cols, cells)
    &&& cells.len() == m.rows * m.cols
    &&& forall|k: int| 0 <= k < cells.len() ==> typed_literal(#[trigger] cells[k], ty, if k / (m.cols as int) == k % (m.cols as int) { 1 } else { 0 })
}

/// The identity matrix of the dimensions of `matrix`.
fn matrix_identity_like(matrix: &Matrix<Expr<TypedMetadata>>) -> (e: Expr<TypedMetadata>)
    ensures
        identity_like(*matrix, e),
{
    let mut real_cells = false;
    let mut j: usize = 0;
    while j < matrix.elements.len()
        invariant
            j <= matrix.elements.len(),
            real_cells == exists|k: int| 0 <= k < j && annotation(#[trigger] matrix.elements@[k]) == Some(TypeView::Real),
        decreases matrix.elements.len() - j,
    {
        if let Some(TypeExpr::Real) = &matrix.elements[j].meta().0 {
            real_cells = true;
        }
        j = j + 1;
    }
    let ghost ty = if real_cells { TypeView::Real } else { TypeView::Nat };
    let ghost width = matrix.cols as int;
    let mut cells: Vec<Expr<TypedMetadata>> = Vec::new();
    let mut row: usize = 0;
    while row < matrix.rows
        invariant
            row <= matrix.rows,
            width == matrix.cols,
            ty == (if real_cells { TypeView::Real } else { TypeView::Nat }),
            cells@.len() == row * width,
            forall|k: int| 0 <= k < cells@.len() ==> typed_literal(#[trigger] cells@[k], ty, if k / width == k % width { 1 } else { 0 }),
        decreases matrix.rows - row,
    {
        let mut col: usize = 0;
        while col < matrix.cols
            invariant
                row < matrix.rows,
                col <= matrix.cols,
                width == matrix.cols,
                ty == (if real_cells { TypeView::Real } else { TypeView::Nat }),
                cells@.len() == row * width + col,
                forall|k: int| 0 <= k < cells@.len() ==> typed_literal(#[trigger] cells@[k], ty, if k / width == k % width { 1 } else { 0 }),
            decreases matrix.cols - col,
        {
            proof {
                vstd::arithmetic::div_mod::lemma_fundamental_div_mod_converse(cells@.len() as int, width, row as int, col as int);
            }
            let value: u64 = if row == col { 1 } else { 0 };
            let cell_type = if real_cells { TypeExpr::Real } else { TypeExpr::Nat };
            cells.push(Expr::with_metadata(TypedMetadata::resolved(cell_type), RawExpr::NatLiteral(value)));
            col = col + 1;
        }
        proof {
            assert(row * width + width == (row + 1) * width) by (nonlinear_arith);
        }
        row = row + 1;
    }
    let ghost listed = cells@;
    let e = crate::concrete::matrix_expression(matrix.rows, matrix.cols, cells);
    proof {
        assert(crate::concrete::matrix_cells(e) == listed);
    }
    e
}

/// Why `base^{exponent}` cannot be elaborated, if it cannot: the exponent
/// must evaluate, the base must have a value, a matrix base must be square,
/// and a product of matrices must have terms and fit in memory.
pub open spec fn power_failure(env: Seq<(crate::view::ParameterView, u64)>, base: Expr<TypedMetadata>, exponent: crate::view::ExprView) -> Option<
    ElaborationFailure,
> {
    match crate::concrete::natural_under(exponent, env) {
        Err(f) => Some(f),
        Ok(n) => if value_failure(base) is Some {
            value_failure(base)
        } else if matrix_typed(base) && literal_shape(base).0 != literal_shape(base).1 {
            Some(ElaborationFailure::Shape("matrix power requires a square matrix"@))
        } else if n >= 2 && matrix_typed(base) && literal_shape(base).0 == 0 {
            Some(ElaborationFailure::Empty("matrix dot product requires at least one term"@))
        } else if n >= 2 && matrix_typed(base) && literal_shape(base).0 * literal_shape(base).0 > usize::MAX {
            Some(ElaborationFailure::DimensionOverflow)
        } else {
            None
        },
    }
}

/// `result` is `base^{n}` elaborated: for `n` zero, the one of the base's
/// numeric type or the identity matrix like the base; otherwise the
/// expression of the product of `n` copies of the base's value, left to
/// right.
pub open spec fn power_as(base: Expr<TypedMetadata>, n: u64, result: Expr<TypedMetadata>) -> bool {
    if n == 0 {
        if matrix_typed(base) {
            base.node().raw matches RawExpr::Matrix(m) && identity_like(m, result)
        } else {
            match annotation(base) {
                Some(t) => typed_literal(result, t, 1),
                None => false,
            }
        }
    } else {
        exists|accs: Seq<Value>, b: Value|
            #[trigger] powers(base, n, accs, b) && expression_of(accs.last(), result)
    }
}

/// `result` is `base^{exponent}` elaborated for the evaluated exponent.
pub open spec fn power_result(env: Seq<(crate::view::ParameterView, u64)>, base: Expr<TypedMetadata>, exponent: crate::view::ExprView, result: Expr<TypedMetadata>) -> bool {
    match crate::concrete::natural_under(exponent, env) {
        Ok(n) => power_as(base, n, result),
        Err(_) => false,
    }
}

/// `accs` are the powers one to `n` of the value `b` of `base`.
pub open spec fn powers(base: Expr<TypedMetadata>, n: u64, accs: Seq<Value>, b: Value) -> bool {
    &&& value_of(base, b)
    &&& accs.len() == n
    &&& n >= 1
    &&& accs[0] == b
    &&& forall|i: int| 1 <= i < n ==> product_as(accs[i - 1], b, #[trigger] accs[i])
}

impl<'a> MatrixVisitor<'a> {
    /// `base^{exponent}` for a natural exponent, by repeated multiplication.
    pub fn power(&self, base: &Expr<TypedMetadata>, exponent: &Expr<TypedMetadata>) -> (result: Result<
        Expr<TypedMetadata>,
        ElaborationError,
    >)
        requires
            literal_well_formed(*base),
        ensures
            match result {
                Ok(e) => power_failure(crate::concrete::assigned(self.environment), *base, exponent@) is None
                    && power_result(crate::concrete::assigned(self.environment), *base, exponent@, e),
                Err(e) => power_failure(crate::concrete::assigned(self.environment), *base, exponent@) == Some(e.failure()),
            },
    {
        let n = match crate::concrete::natural_of(self.environment, exponent) {
            Ok(n) => n,
            Err(e) => return Err(e),
        };
        let base_value = match self.value(base) {
            Ok(v) => v,
            Err(e) => return Err(e),
        };
        if let Value::Matrix(m) = &base_value {
            if m.rows != m.cols {
                return Err(ElaborationError::Shape("matrix power requires a square matrix"));
            }
        }
        if n == 0 {
            return match &base_value {
                Value::Scalar(x) => match &x.meta().0 {
                    Some(TypeExpr::Nat) => Ok(Expr::with_metadata(TypedMetadata::resolved(TypeExpr::Nat), RawExpr::NatLiteral(1))),
                    Some(TypeExpr::Int) => Ok(Expr::with_metadata(TypedMetadata::resolved(TypeExpr::Int), RawExpr::NatLiteral(1))),
                    _ => Ok(Expr::with_metadata(TypedMetadata::resolved(TypeExpr::Real), RawExpr::NatLiteral(1))),
                },
                Value::Matrix(m) => Ok(matrix_identity_like(m)),
            };
        }
        let ghost b = base_value;
        let ghost mut accs: Seq<Value> = seq![base_value];
        let mut result = share_value(&base_value);
        let mut k: u64 = 1;
        while k < n
            invariant
                1 <= k <= n,
                crate::concrete::natural_under(exponent@, crate::concrete::assigned(self.environment)) == Ok::<
                    u64,
                    ElaborationFailure,
                >(n),
                k >= 2 ==> combined_shape(Finop::Times, value_shape(b), value_shape(b)) is Ok,
                value_of(*base, b),
                b.well_formed(),
                value_failure(*base) is None,
                matrix_typed(*base) ==> literal_shape(*base).0 == literal_shape(*base).1,
                match b {
                    Value::Matrix(m) => m.rows == literal_shape(*base).0 && m.cols == literal_shape(*base).1,
                    Value::Scalar(_) => !matrix_typed(*base),
                },
                match (base_value, b) {
                    (Value::Scalar(x), Value::Scalar(y)) => x == y,
                    (Value::Matrix(x), Value::Matrix(y)) => x.rows == y.rows && x.cols == y.cols && x.elements@ == y.elements@,
                    _ => false,
                },
                accs.len() == k,
                accs[0] == b,
                forall|i: int| 1 <= i < k ==> product_as(accs[i - 1], b, #[trigger] accs[i]),
                value_shape(result) == value_shape(b),
                match (result, accs.last()) {
                    (Value::Scalar(x), Value::Scalar(y)) => x == y,
                    (Value::Matrix(x), Value::Matrix(y)) => x.rows == y.rows && x.cols == y.cols && x.elements@ == y.elements@,
                    _ => false,
                },
                result.well_formed(),
            decreases n - k,
        {
            let ghost previous = result;
            let operand = share_value(&base_value);
            let ghost operand_copy = operand;
            result = match self.multiply_values(result, operand) {
                Ok(v) => v,
                Err(e) => {
                    proof {
                        lemma_combined_failure(Finop::Times, previous, operand_copy);
                        assert(value_shape(operand_copy) == value_shape(b));
                    }
                    return Err(e);
                },
            };
            proof {
                lemma_combined_shape(Finop::Times, previous, operand_copy, result);
                accs = accs.push(result);
            }
            k = k + 1;
        }
        let ghost last = result;
        let e = self.value_expression(result);
        proof {
            assert(powers(*base, n, accs, b));
            assert(expression_of(accs.last(), e));
        }
        Ok(e)
    }
}


// ---------------------------------------------------------------------------
// Block matrices
// ---------------------------------------------------------------------------

/// The dimensions of the block an operand stands for: one by one for a
/// scalar.
pub open spec fn block_shape(e: Expr<TypedMetadata>) -> (usize, usize) {
    if matrix_typed(e) { literal_shape(e) } else { (1, 1) }
}

/// `b` is the block the operand `e` stands for: its matrix literal, or the
/// one-by-one matrix of a scalar.
pub open spec fn block_for(e: Expr<TypedMetadata>, b: Matrix<Expr<TypedMetadata>>) -> bool {
    if matrix_typed(e) {
        (b.rows, b.cols) == literal_shape(e) && b.elements@ == literal_cells(e)
    } else {
        b.rows == 1 && b.cols == 1 && b.elements@ == seq![e]
    }
}

/// The failure of the first operand without a value.
pub open spec fn first_value_failure(es: Seq<Expr<TypedMetadata>>) -> Option<ElaborationFailure>
    decreases es.len(),
{
    if es.len() == 0 {
        None
    } else {
        match first_value_failure(es.drop_last()) {
            Some(f) => Some(f),
            None => value_failure(es.last()),
        }
    }
}

/// Every block of the literal is one by one.
pub open spec fn unit_blocks(es: Seq<Expr<TypedMetadata>>) -> bool {
    forall|i: int| 0 <= i < es.len() ==> #[trigger] block_shape(es[i]) == (1usize, 1usize)
}

/// The blocks of each row of blocks have the height of the row's first.
pub open spec fn heights_agree(es: Seq<Expr<TypedMetadata>>, rows: int, cols: int) -> bool {
    forall|r: int, c: int|
        0 <= r < rows && 0 <= c < cols ==> #[trigger] block_shape(es[r * cols + c]).0 == block_shape(es[r * cols]).0
}

/// The blocks of each column of blocks have the width of the column's
/// first.
pub open spec fn widths_agree(es: Seq<Expr<TypedMetadata>>, rows: int, cols: int) -> bool {
    forall|r: int, c: int|
        0 <= r < rows && 0 <= c < cols ==> #[trigger] block_shape(es[r * cols + c]).1 == block_shape(es[c]).1
}

/// The total height of the first `n` rows of blocks.
pub open spec fn height_sum(es: Seq<Expr<TypedMetadata>>, cols: int, n: int) -> int
    decreases n,
{
    if n <= 0 { 0 } else { height_sum(es, cols, n - 1) + block_shape(es[(n - 1) * cols]).0 }
}

/// The total width of the first `n` columns of blocks.
pub open spec fn width_sum(es: Seq<Expr<TypedMetadata>>, n: int) -> int
    decreases n,
{
    if n <= 0 { 0 } else { width_sum(es, n - 1) + block_shape(es[n - 1]).1 }
}

/// Why a matrix literal cannot be flattened, if it cannot: it must hold
/// `rows * cols` cells, be empty in both dimensions or neither, its cells
/// must have values, its blocks must agree in height along rows and in width
/// along columns, and the flat matrix must fit in memory sizes.
pub open spec fn flatten_failure(m: Matrix<Expr<TypedMetadata>>) -> Option<ElaborationFailure> {
    let es = m.elements@;
    let rows = m.rows as int;
    let cols = m.cols as int;
    if rows * cols > usize::MAX {
        Some(ElaborationFailure::DimensionOverflow)
    } else if es.len() != rows * cols || (rows == 0) != (cols == 0) {
        Some(ElaborationFailure::InvalidMatrixLiteral)
    } else if rows == 0 {
        None
    } else if first_value_failure(es) is Some {
        first_value_failure(es)
    } else if unit_blocks(es) {
        None
    } else if !heights_agree(es, rows, cols) {
        Some(ElaborationFailure::Shape("blocks in a block-matrix row must have equal heights"@))
    } else if !widths_agree(es, rows, cols) {
        Some(ElaborationFailure::Shape("blocks in a block-matrix column must have equal widths"@))
    } else if height_sum(es, cols, rows) > usize::MAX || width_sum(es, cols) > usize::MAX || height_sum(es, cols, rows)
        * width_sum(es, cols) > usize::MAX {
        Some(ElaborationFailure::DimensionOverflow)
    } else {
        None
    }
}

/// The cells of inner row `ir` of the first `n` blocks of block row `br`.
pub open spec fn block_line(blocks: Seq<Matrix<Expr<TypedMetadata>>>, cols: int, br: int, ir: int, n: int) -> Seq<
    Expr<TypedMetadata>,
>
    decreases n,
{
    if n <= 0 {
        Seq::empty()
    } else {
        let b = blocks[br * cols + n - 1];
        block_line(blocks, cols, br, ir, n - 1) + b.elements@.subrange(ir * b.cols, ir * b.cols + b.cols)
    }
}

/// The cells of the first `n` inner rows of block row `br`.
pub open spec fn block_row_cells(blocks: Seq<Matrix<Expr<TypedMetadata>>>, cols: int, br: int, n: int) -> Seq<
    Expr<TypedMetadata>,
>
    decreases n,
{
    if n <= 0 {
        Seq::empty()
    } else {
        block_row_cells(blocks, cols, br, n - 1) + block_line(blocks, cols, br, n - 1, cols)
    }
}

/// The row-major cells of the first `n` block rows of a block matrix with
/// `cols` blocks per row.
pub open spec fn flattened(blocks: Seq<Matrix<Expr<TypedMetadata>>>, cols: int, n: int) -> Seq<Expr<TypedMetadata>>
    decreases n,
{
    if n <= 0 {
        Seq::empty()
    } else {
        flattened(blocks, cols, n - 1) + block_row_cells(blocks, cols, n - 1, blocks[(n - 1) * cols].rows as int)
    }
}

/// `result` is the matrix literal flattened: nothing for an empty literal
/// or one of one-by-one blocks, and otherwise the flat matrix of the cells
/// of its blocks, row by row.
pub open spec fn flatten_as(m: Matrix<Expr<TypedMetadata>>, result: Option<Expr<TypedMetadata>>) -> bool {
    let es = m.elements@;
    if m.rows == 0 || unit_blocks(es) {
        result is None
    } else {
        exists|blocks: Seq<Matrix<Expr<TypedMetadata>>>|
            #[trigger] blocks_for(es, blocks) && flattened_result(blocks, m, result)
    }
}

/// `blocks` are the blocks of the operands `es`.
pub open spec fn blocks_for(es: Seq<Expr<TypedMetadata>>, blocks: Seq<Matrix<Expr<TypedMetadata>>>) -> bool {
    &&& blocks.len() == es.len()
    &&& forall|i: int| 0 <= i < es.len() ==> block_for(es[i], #[trigger] blocks[i])
}

/// `result` is the flat matrix of the blocks of the literal `m`.
pub open spec fn flattened_result(blocks: Seq<Matrix<Expr<TypedMetadata>>>, m: Matrix<Expr<TypedMetadata>>, result: Option<Expr<TypedMetadata>>) -> bool {
    let es = m.elements@;
    match result {
        Some(e) => flat_matrix(
            e,
            height_sum(es, m.cols as int, m.rows as int) as usize,
            width_sum(es, m.cols as int) as usize,
            flattened(blocks, m.cols as int, m.rows as int),
        ),
        None => false,
    }
}


proof fn lemma_first_value_failure_extends(es: Seq<Expr<TypedMetadata>>, m: int)
    requires
        0 <= m <= es.len(),
        first_value_failure(es.take(m)) is Some,
    ensures
        first_value_failure(es) == first_value_failure(es.take(m)),
    decreases es.len() - m,
{
    if m == es.len() {
        assert(es.take(m) =~= es);
    } else {
        assert(es.drop_last().take(m) =~= es.take(m));
        lemma_first_value_failure_extends(es.drop_last(), m);
    }
}

proof fn lemma_height_sum_grows(es: Seq<Expr<TypedMetadata>>, cols: int, m: int, n: int)
    requires
        0 <= m <= n,
    ensures
        height_sum(es, cols, m) <= height_sum(es, cols, n),
    decreases n - m,
{
    if m < n {
        lemma_height_sum_grows(es, cols, m, n - 1);
    }
}

proof fn lemma_width_sum_grows(es: Seq<Expr<TypedMetadata>>, m: int, n: int)
    requires
        0 <= m <= n,
    ensures
        width_sum(es, m) <= width_sum(es, n),
    decreases n - m,
{
    if m < n {
        lemma_width_sum_grows(es, m, n - 1);
    }
}

impl<'a> MatrixVisitor<'a> {
    /// A block matrix literal flattened into the matrix of its cells; nothing
    /// for an empty literal or one of one-by-one blocks.
    #[verifier::rlimit(40)]
    pub fn flatten_matrix(&self, matrix: &Matrix<Expr<TypedMetadata>>) -> (result: Result<
        Option<Expr<TypedMetadata>>,
        ElaborationError,
    >)
        requires
            forall|i: int| 0 <= i < matrix.elements@.len() ==> literal_well_formed(#[trigger] matrix.elements@[i]),
        ensures
            match result {
                Ok(r) => flatten_failure(*matrix) is None && flatten_as(*matrix, r),
                Err(e) => flatten_failure(*matrix) == Some(e.failure()),
            },
    {
        let ghost es = matrix.elements@;
        let ghost rows = matrix.rows as int;
        let ghost cols = matrix.cols as int;
        let expected = match matrix.rows.checked_mul(matrix.cols) {
            Some(n) => n,
            None => return Err(ElaborationError::DimensionOverflow),
        };
        if matrix.elements.len() != expected || (matrix.rows == 0) != (matrix.cols == 0) {
            return Err(ElaborationError::InvalidMatrixLiteral);
        }
        if matrix.rows == 0 {
            return Ok(None);
        }
        proof {
            assert(cols <= rows * cols) by (nonlinear_arith)
                requires
                    rows >= 1,
                    cols >= 0,
            ;
        }
        // The block of every cell.
        let mut blocks: Vec<Matrix<Expr<TypedMetadata>>> = Vec::new();
        let mut i: usize = 0;
        while i < matrix.elements.len()
            invariant
                es == matrix.elements@,
                rows == matrix.rows,
                cols == matrix.cols,
                rows * cols <= usize::MAX,
                es.len() == rows * cols,
                rows > 0,
                cols > 0,
                forall|k: int| 0 <= k < es.len() ==> literal_well_formed(#[trigger] es[k]),
                i <= es.len(),
                first_value_failure(es.take(i as int)) is None,
                blocks@.len() == i,
                forall|k: int| 0 <= k < i ==> block_for(es[k], #[trigger] blocks@[k]) && blocks@[k].well_formed(),
            decreases es.len() - i,
        {
            proof {
                assert(es.take(i + 1).drop_last() =~= es.take(i as int));
            }
            let value = match self.value(&matrix.elements[i]) {
                Ok(v) => v,
                Err(e) => {
                    proof {
                        lemma_first_value_failure_extends(es, i + 1);
                    }
                    return Err(e);
                },
            };
            let block = match value {
                Value::Scalar(x) => {
                    let mut cell: Vec<Expr<TypedMetadata>> = Vec::new();
                    cell.push(x);
                    proof {
                        assert(cell@ =~= seq![es[i as int]]);
                    }
                    Matrix { rows: 1, cols: 1, elements: cell }
                },
                Value::Matrix(m) => m,
            };
            blocks.push(block);
            i = i + 1;
        }
        proof {
            assert(es.take(es.len() as int) =~= es);
        }
        // Blocks that are all one by one leave the literal as it is.
        let mut all_unit = true;
        let mut j: usize = 0;
        while j < blocks.len()
            invariant
                blocks@.len() == es.len(),
                forall|k: int| 0 <= k < es.len() ==> block_for(es[k], #[trigger] blocks@[k]),
                j <= blocks@.len(),
                all_unit == forall|k: int| 0 <= k < j ==> #[trigger] block_shape(es[k]) == (1usize, 1usize),
            decreases blocks@.len() - j,
        {
            proof {
                assert(block_for(es[j as int], blocks@[j as int]));
                assert(block_shape(es[j as int]) == (blocks@[j as int].rows, blocks@[j as int].cols));
            }
            if blocks[j].rows != 1 || blocks[j].cols != 1 {
                all_unit = false;
            }
            j = j + 1;
        }
        if all_unit {
            return Ok(None);
        }
        proof {
            assert(!unit_blocks(es));
        }
        // Heights along rows of blocks.
        let mut row_heights: Vec<usize> = Vec::new();
        let mut row: usize = 0;
        while row < matrix.rows
            invariant
                es == matrix.elements@,
                rows * cols <= usize::MAX,
                cols <= es.len(),
                first_value_failure(es) is None,
                !unit_blocks(es),
                rows == matrix.rows,
                cols == matrix.cols,
                es.len() == rows * cols,
                rows > 0,
                cols > 0,
                blocks@.len() == es.len(),
                forall|k: int| 0 <= k < es.len() ==> block_for(es[k], #[trigger] blocks@[k]),
                row <= rows,
                row_heights@.len() == row,
                forall|r: int| 0 <= r < row ==> #[trigger] row_heights@[r] == block_shape(es[r * cols]).0,
                forall|r: int, c: int|
                    0 <= r < row && 0 <= c < cols ==> #[trigger] block_shape(es[r * cols + c]).0 == block_shape(
                        es[r * cols],
                    ).0,
            decreases rows - row,
        {
            proof {
                assert(row * cols + cols <= rows * cols) by (nonlinear_arith)
                    requires
                        row < rows,
                        0 <= cols,
                ;
            }
            let first = row * matrix.cols;
            let height = blocks[first].rows;
            let mut col: usize = 1;
            while col < matrix.cols
                invariant
                    es == matrix.elements@,
                    rows * cols <= usize::MAX,
                    cols <= es.len(),
                    first_value_failure(es) is None,
                    !unit_blocks(es),
                rows * cols <= usize::MAX,
                cols <= es.len(),
                first_value_failure(es) is None,
                !unit_blocks(es),
                    rows == matrix.rows,
                    cols == matrix.cols,
                    es.len() == rows * cols,
                    blocks@.len() == es.len(),
                    forall|k: int| 0 <= k < es.len() ==> block_for(es[k], #[trigger] blocks@[k]),
                    row < rows,
                    first == row * cols,
                    first + cols <= es.len(),
                    height == block_shape(es[first as int]).0,
                    1 <= col <= cols,
                    forall|c: int| 0 <= c < col ==> #[trigger] block_shape(es[row * cols + c]).0 == height,
                decreases cols - col,
            {
                if blocks[first + col].rows != height {
                    proof {
                        assert(!heights_agree(es, rows, cols)) by {
                            assert(block_shape(es[row * cols + col]).0 != block_shape(es[row * cols]).0);
                        }
                        assert(first_value_failure(es) is None);
                        assert(!unit_blocks(es));
                    }
                    return Err(ElaborationError::Shape("blocks in a block-matrix row must have equal heights"));
                }
                col = col + 1;
            }
            row_heights.push(height);
            row = row + 1;
        }
        // Widths along columns of blocks.
        let mut column_widths: Vec<usize> = Vec::new();
        let mut col: usize = 0;
        while col < matrix.cols
            invariant
                es == matrix.elements@,
                rows * cols <= usize::MAX,
                cols <= es.len(),
                first_value_failure(es) is None,
                !unit_blocks(es),
                rows == matrix.rows,
                cols == matrix.cols,
                es.len() == rows * cols,
                rows > 0,
                cols > 0,
                blocks@.len() == es.len(),
                forall|k: int| 0 <= k < es.len() ==> block_for(es[k], #[trigger] blocks@[k]),
                heights_agree(es, rows, cols),
                col <= cols,
                column_widths@.len() == col,
                forall|c: int| 0 <= c < col ==> #[trigger] column_widths@[c] == block_shape(es[c]).1,
                forall|r: int, c: int|
                    0 <= r < rows && 0 <= c < col ==> #[trigger] block_shape(es[r * cols + c]).1 == block_shape(es[c]).1,
            decreases cols - col,
        {
            let width = blocks[col].cols;
            proof {
                assert(block_for(es[col as int], blocks@[col as int]));
                assert(width == block_shape(es[col as int]).1);
                assert(0 * cols + col == col);
            }
            let mut row: usize = 1;
            while row < matrix.rows
                invariant
                    es == matrix.elements@,
                    rows * cols <= usize::MAX,
                    cols <= es.len(),
                    first_value_failure(es) is None,
                    !unit_blocks(es),
                rows * cols <= usize::MAX,
                cols <= es.len(),
                first_value_failure(es) is None,
                !unit_blocks(es),
                    rows == matrix.rows,
                    cols == matrix.cols,
                    es.len() == rows * cols,
                    blocks@.len() == es.len(),
                    forall|k: int| 0 <= k < es.len() ==> block_for(es[k], #[trigger] blocks@[k]),
                    rows > 0,
                    cols > 0,
                    heights_agree(es, rows, cols),
                    col < cols,
                    width == block_shape(es[col as int]).1,
                    1 <= row <= rows,
                    forall|r: int| 0 <= r < row ==> #[trigger] block_shape(es[r * cols + col]).1 == width,
                decreases rows - row,
            {
                proof {
                    assert(row * cols + col < rows * cols) by (nonlinear_arith)
                        requires
                            0 <= row < rows,
                            0 <= col < cols,
                    ;
                }
                if blocks[row * matrix.cols + col].cols != width {
                    proof {
                        assert(!widths_agree(es, rows, cols)) by {
                            assert(block_shape(es[row * cols + col]).1 != block_shape(es[col as int]).1);
                        }
                        assert(first_value_failure(es) is None);
                        assert(!unit_blocks(es));
                    }
                    return Err(ElaborationError::Shape("blocks in a block-matrix column must have equal widths"));
                }
                row = row + 1;
            }
            column_widths.push(width);
            col = col + 1;
        }
        // The dimensions of the flat matrix.
        let mut total_rows: usize = 0;
        let mut r: usize = 0;
        while r < matrix.rows
            invariant
                es == matrix.elements@,
                rows == matrix.rows,
                cols == matrix.cols,
                rows * cols <= usize::MAX,
                es.len() == rows * cols,
                rows > 0,
                cols > 0,
                first_value_failure(es) is None,
                !unit_blocks(es),
                heights_agree(es, rows, cols),
                widths_agree(es, rows, cols),
                row_heights@.len() == rows,
                forall|q: int| 0 <= q < rows ==> #[trigger] row_heights@[q] == block_shape(es[q * cols]).0,
                r <= rows,
                total_rows == height_sum(es, cols, r as int),
            decreases rows - r,
        {
            total_rows = match total_rows.checked_add(row_heights[r]) {
                Some(sum) => sum,
                None => {
                    proof {
                        lemma_height_sum_grows(es, cols, r + 1, rows);
                        assert(first_value_failure(es) is None);
                        assert(!unit_blocks(es));
                    }
                    return Err(ElaborationError::DimensionOverflow);
                },
            };
            r = r + 1;
        }
        let mut total_cols: usize = 0;
        let mut c: usize = 0;
        while c < matrix.cols
            invariant
                es == matrix.elements@,
                rows == matrix.rows,
                cols == matrix.cols,
                rows * cols <= usize::MAX,
                es.len() == rows * cols,
                rows > 0,
                cols > 0,
                first_value_failure(es) is None,
                !unit_blocks(es),
                heights_agree(es, rows, cols),
                widths_agree(es, rows, cols),
                total_rows == height_sum(es, cols, rows),
                column_widths@.len() == cols,
                forall|q: int| 0 <= q < cols ==> #[trigger] column_widths@[q] == block_shape(es[q]).1,
                c <= cols,
                total_cols == width_sum(es, c as int),
            decreases cols - c,
        {
            total_cols = match total_cols.checked_add(column_widths[c]) {
                Some(sum) => sum,
                None => {
                    proof {
                        lemma_width_sum_grows(es, c + 1, cols);
                        assert(first_value_failure(es) is None);
                        assert(!unit_blocks(es));
                    }
                    return Err(ElaborationError::DimensionOverflow);
                },
            };
            c = c + 1;
        }
        if total_rows.checked_mul(total_cols).is_none() {
            proof {
                assert(first_value_failure(es) is None);
                assert(!unit_blocks(es));
            }
            return Err(ElaborationError::DimensionOverflow);
        }
        // The cells, row by row.
        let ghost bs = blocks@;
        let mut cells: Vec<Expr<TypedMetadata>> = Vec::new();
        let mut block_row: usize = 0;
        while block_row < matrix.rows
            invariant
                es == matrix.elements@,
                rows * cols <= usize::MAX,
                cols <= es.len(),
                first_value_failure(es) is None,
                !unit_blocks(es),
                rows == matrix.rows,
                cols == matrix.cols,
                es.len() == rows * cols,
                bs == blocks@,
                rows > 0,
                cols > 0,
                bs.len() == es.len(),
                forall|k: int| 0 <= k < es.len() ==> block_for(es[k], #[trigger] bs[k]) && bs[k].well_formed(),
                heights_agree(es, rows, cols),
                row_heights@.len() == rows,
                forall|q: int| 0 <= q < rows ==> #[trigger] row_heights@[q] == block_shape(es[q * cols]).0,
                block_row <= rows,
                cells@ == flattened(bs, cols, block_row as int),
            decreases rows - block_row,
        {
            let height = row_heights[block_row];
            let mut inner_row: usize = 0;
            while inner_row < height
                invariant
                    es == matrix.elements@,
                    rows * cols <= usize::MAX,
                    cols <= es.len(),
                    first_value_failure(es) is None,
                    !unit_blocks(es),
                rows * cols <= usize::MAX,
                cols <= es.len(),
                first_value_failure(es) is None,
                !unit_blocks(es),
                    rows == matrix.rows,
                    cols == matrix.cols,
                    es.len() == rows * cols,
                    bs == blocks@,
                    rows > 0,
                    cols > 0,
                    bs.len() == es.len(),
                    forall|k: int| 0 <= k < es.len() ==> block_for(es[k], #[trigger] bs[k]) && bs[k].well_formed(),
                    heights_agree(es, rows, cols),
                    block_row < rows,
                    height == block_shape(es[block_row * cols]).0,
                    inner_row <= height,
                    cells@ == flattened(bs, cols, block_row as int) + block_row_cells(bs, cols, block_row as int, inner_row as int),
                decreases height - inner_row,
            {
                let mut block_col: usize = 0;
                while block_col < matrix.cols
                    invariant
                        es == matrix.elements@,
                        rows * cols <= usize::MAX,
                        cols <= es.len(),
                        first_value_failure(es) is None,
                        !unit_blocks(es),
                    rows * cols <= usize::MAX,
                    cols <= es.len(),
                    first_value_failure(es) is None,
                    !unit_blocks(es),
                rows * cols <= usize::MAX,
                cols <= es.len(),
                first_value_failure(es) is None,
                !unit_blocks(es),
                        rows == matrix.rows,
                        cols == matrix.cols,
                        es.len() == rows * cols,
                        bs == blocks@,
                        rows > 0,
                        cols > 0,
                        bs.len() == es.len(),
                        forall|k: int| 0 <= k < es.len() ==> block_for(es[k], #[trigger] bs[k]) && bs[k].well_formed(),
                        heights_agree(es, rows, cols),
                        block_row < rows,
                        height == block_shape(es[block_row * cols]).0,
                        inner_row < height,
                        block_col <= cols,
                        cells@ == flattened(bs, cols, block_row as int) + block_row_cells(
                            bs,
                            cols,
                            block_row as int,
                            inner_row as int,
                        ) + block_line(bs, cols, block_row as int, inner_row as int, block_col as int),
                    decreases cols - block_col,
                {
                    proof {
                        assert(block_row * cols + block_col < rows * cols) by (nonlinear_arith)
                            requires
                                0 <= block_row < rows,
                                0 <= block_col < cols,
                        ;
                    }
                    let index = block_row * matrix.cols + block_col;
                    let block = &blocks[index];
                    proof {
                        assert(block_for(es[index as int], bs[index as int]));
                        assert(block_shape(es[index as int]).0 == height);
                        assert(block.rows == height);
                        assert(inner_row * block.cols + block.cols <= block.rows * block.cols) by (nonlinear_arith)
                            requires
                                inner_row < block.rows,
                        ;
                    }
                    let start = inner_row * block.cols;
                    let ghost before = cells@;
                    let mut k: usize = 0;
                    while k < block.cols
                        invariant
                            block.well_formed(),
                            start + block.cols <= block.elements@.len(),
                            k <= block.cols,
                            cells@ == before + block.elements@.subrange(start as int, start + k),
                        decreases block.cols - k,
                    {
                        cells.push(block.elements[start + k].share());
                        k = k + 1;
                        proof {
                            assert(cells@ =~= before + block.elements@.subrange(start as int, start + k));
                        }
                    }
                    proof {
                        assert(bs[block_row * cols + block_col] == *block);
                        assert(block_line(bs, cols, block_row as int, inner_row as int, block_col + 1) == block_line(
                            bs,
                            cols,
                            block_row as int,
                            inner_row as int,
                            block_col as int,
                        ) + block.elements@.subrange(start as int, start + block.cols));
                        assert(cells@ =~= flattened(bs, cols, block_row as int) + block_row_cells(
                            bs,
                            cols,
                            block_row as int,
                            inner_row as int,
                        ) + block_line(bs, cols, block_row as int, inner_row as int, block_col + 1));
                    }
                    block_col = block_col + 1;
                }
                proof {
                    assert(cells@ =~= flattened(bs, cols, block_row as int) + block_row_cells(
                        bs,
                        cols,
                        block_row as int,
                        inner_row + 1,
                    ));
                }
                inner_row = inner_row + 1;
            }
            proof {
                assert(block_row * cols < rows * cols) by (nonlinear_arith)
                    requires
                        0 <= block_row < rows,
                        0 < cols,
                ;
                assert(block_for(es[block_row * cols], bs[block_row * cols]));
                assert(bs[block_row * cols].rows == height);
                assert(cells@ =~= flattened(bs, cols, block_row + 1));
            }
            block_row = block_row + 1;
        }
        let ghost listed = cells@;
        let flat = crate::concrete::matrix_expression(total_rows, total_cols, cells);
        proof {
            assert(blocks_for(es, bs));
            assert(flattened_result(bs, *matrix, Some(flat)));
        }
        Ok(Some(flat))
    }
}


// ---------------------------------------------------------------------------
// Operands still waiting for their matrix values
// ---------------------------------------------------------------------------

/// An operand of matrix type that is not yet a flat matrix literal.
pub open spec fn pending(e: Expr<TypedMetadata>) -> bool {
    matrix_typed(e) && !(e.node().raw is Matrix)
}

/// Whether some operand of the list is pending.
pub open spec fn some_pending(es: Seq<Expr<TypedMetadata>>) -> bool {
    exists|i: int| 0 <= i < es.len() && pending(#[trigger] es[i])
}

/// Whether some right operand of the links is pending.
pub open spec fn some_link_pending(links: Seq<(Cmp, Expr<TypedMetadata>)>) -> bool {
    exists|i: int| 0 <= i < links.len() && pending(#[trigger] links[i].1)
}

/// Why the operands of a node cannot be inspected, if they cannot: every
/// operand that is inspected must be typed; operands after the first pending
/// one of a binary node are not inspected.
pub open spec fn pending_failure(node: Expr<TypedMetadata>) -> Option<ElaborationFailure> {
    match node.node().raw {
        RawExpr::Monop(_, x) => if annotation(x) is None { Some(untyped()) } else { None },
        RawExpr::Binop(op, l, r) => if op == crate::Binop::Cast {
            if annotation(r) is None { Some(untyped()) } else { None }
        } else if annotation(l) is None {
            Some(untyped())
        } else if pending(l) {
            None
        } else if annotation(r) is None {
            Some(untyped())
        } else {
            None
        },
        RawExpr::Finop(_, xs) => if exists|i: int| 0 <= i < xs@.len() && annotation(#[trigger] xs@[i]) is None {
            Some(untyped())
        } else {
            None
        },
        RawExpr::CmpChain(c) => if annotation(c.start) is None {
            Some(untyped())
        } else if pending(c.start) {
            None
        } else if exists|i: int| 0 <= i < c.assertions@.len() && annotation(#[trigger] c.assertions@[i].1) is None {
            Some(untyped())
        } else {
            None
        },
        _ => None,
    }
}

/// Whether an operand of the node still waits for its matrix value: the
/// operand of a unary node, the value of a cast, either operand of another
/// binary node, any operand of a finite node or of a comparison chain.
pub open spec fn has_pending_operand(node: Expr<TypedMetadata>) -> bool {
    match node.node().raw {
        RawExpr::Monop(_, x) => pending(x),
        RawExpr::Binop(op, l, r) => if op == crate::Binop::Cast { pending(r) } else { pending(l) || pending(r) },
        RawExpr::Finop(_, xs) => some_pending(xs@),
        RawExpr::CmpChain(c) => pending(c.start) || some_link_pending(c.assertions@),
        _ => false,
    }
}

impl<'a> MatrixVisitor<'a> {
    /// Whether an operand has a matrix type but is not yet a matrix literal.
    pub fn matrix_operand_pending(&self, expression: &Expr<TypedMetadata>) -> (result: Result<bool, ElaborationError>)
        ensures
            match result {
                Ok(b) => annotation(*expression) is Some && b == pending(*expression),
                Err(e) => annotation(*expression) is None && e.failure() == untyped(),
            },
    {
        let ty = match symbolic_type_of(expression) {
            Ok(t) => t,
            Err(e) => return Err(e),
        };
        let is_matrix = match ty {
            TypeExpr::Matrix(_, _) => true,
            _ => false,
        };
        let is_literal = match expression.raw() {
            RawExpr::Matrix(_) => true,
            _ => false,
        };
        Ok(is_matrix && !is_literal)
    }

    /// Whether the node has an operand that still waits for its matrix
    /// value.
    pub fn node_has_pending_matrix_operand(&self, node: &Expr<TypedMetadata>) -> (result: Result<bool, ElaborationError>)
        ensures
            match result {
                Ok(b) => pending_failure(*node) is None && b == has_pending_operand(*node),
                Err(e) => pending_failure(*node) == Some(e.failure()),
            },
    {
        match node.raw() {
            RawExpr::Monop(_, inner) => self.matrix_operand_pending(inner),
            RawExpr::Binop(crate::Binop::Cast, _, value) => self.matrix_operand_pending(value),
            RawExpr::Binop(_, left, right) => {
                let l = match self.matrix_operand_pending(left) {
                    Ok(b) => b,
                    Err(e) => return Err(e),
                };
                if l {
                    return Ok(true);
                }
                self.matrix_operand_pending(right)
            },
            RawExpr::Finop(_, expressions) => {
                let ghost xs = expressions@;
                let mut any = false;
                let mut i: usize = 0;
                while i < expressions.len()
                    invariant
                        xs == expressions@,
                        node.node().raw matches RawExpr::Finop(_, v) && v@ == xs,
                        i <= xs.len(),
                        forall|k: int| 0 <= k < i ==> annotation(#[trigger] xs[k]) is Some,
                        any == exists|k: int| 0 <= k < i && pending(#[trigger] xs[k]),
                    decreases xs.len() - i,
                {
                    let p = match self.matrix_operand_pending(&expressions[i]) {
                        Ok(b) => b,
                        Err(e) => {
                            proof {
                                assert(annotation(xs[i as int]) is None);
                            }
                            return Err(e);
                        },
                    };
                    any = any || p;
                    i = i + 1;
                }
                Ok(any)
            },
            RawExpr::CmpChain(chain) => {
                let start = match self.matrix_operand_pending(&chain.start) {
                    Ok(b) => b,
                    Err(e) => return Err(e),
                };
                if start {
                    return Ok(true);
                }
                let ghost links = chain.assertions@;
                let mut any = false;
                let mut i: usize = 0;
                while i < chain.assertions.len()
                    invariant
                        links == chain.assertions@,
                        node.node().raw matches RawExpr::CmpChain(c) && c.start == chain.start && c.assertions@ == links,
                        annotation(chain.start) is Some,
                        !pending(chain.start),
                        i <= links.len(),
                        forall|k: int| 0 <= k < i ==> annotation(#[trigger] links[k].1) is Some,
                        any == exists|k: int| 0 <= k < i && pending(#[trigger] links[k].1),
                    decreases links.len() - i,
                {
                    let p = match self.matrix_operand_pending(&chain.assertions[i].1) {
                        Ok(b) => b,
                        Err(e) => {
                            proof {
                                assert(annotation(links[i as int].1) is None);
                            }
                            return Err(e);
                        },
                    };
                    any = any || p;
                    i = i + 1;
                }
                Ok(any)
            },
            _ => Ok(false),
        }
    }
}

/// The recorded type of a node, or the failure of asking for it.
fn symbolic_type_of(expression: &Expr<TypedMetadata>) -> (ty: Result<TypeExpr<()>, ElaborationError>)
    ensures
        match ty {
            Ok(t) => annotation(*expression) == Some(type_view(t)),
            Err(e) => annotation(*expression) is None && e.failure() == untyped(),
        },
{
    match &expression.meta().0 {
        Some(t) => Ok(t.duplicate()),
        None => Err(ElaborationError::Type(crate::type_resolver::TypeError::Unsupported("expression has no value type"))),
    }
}

} // verus!
