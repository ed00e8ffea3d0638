//! The per-node steps of elaboration for a concrete environment: sequences
//! turned into their elements, `\operatorname{diag}` turned into a flat
//! matrix, sequence operations expanded over their evaluated ranges, and
//! type memberships decided.
use vstd::prelude::*;

use crate::elaboration::{annotations_fit, index_substituted, retyped_as, substitute_index, ElaborationError};
use crate::expression_utils::{max_bound_index, size};
use crate::natural::{assignment_views, evaluation, NaturalFailure};
use crate::type_expr::{open_sequence_element, opened_type};
use crate::type_resolver::{annotation, MaybeTyped, TypeError, TypeErrorView, TypedMetadata};
use crate::view::{type_view, ExprView, ParameterView, TypeView, VariableView};
use crate::{Binop, Environment, Expr, Finop, Matrix, RawExpr, SeqOp, TypeExpr, Variable};

verus! {

// ---------------------------------------------------------------------------
// Failures as values
// ---------------------------------------------------------------------------

/// An elaboration failure as a value.
pub enum ElaborationFailure {
    Type(TypeErrorView),
    Natural(NaturalFailure),
    Unsupported(Seq<char>),
    InvalidOperands(Seq<char>),
    Shape(Seq<char>),
    Empty(Seq<char>),
    DimensionOverflow,
    InvalidMatrixLiteral,
}

impl ElaborationError {
    pub open spec fn failure(&self) -> ElaborationFailure {
        match self {
            ElaborationError::Type(e) => ElaborationFailure::Type(e.view_error()),
            ElaborationError::Natural(e) => ElaborationFailure::Natural(e.failure()),
            ElaborationError::Unsupported(m) => ElaborationFailure::Unsupported(m@),
            ElaborationError::InvalidOperands(m) => ElaborationFailure::InvalidOperands(m@),
            ElaborationError::Shape(m) => ElaborationFailure::Shape(m@),
            ElaborationError::Empty(m) => ElaborationFailure::Empty(m@),
            ElaborationError::DimensionOverflow => ElaborationFailure::DimensionOverflow,
            ElaborationError::InvalidMatrixLiteral => ElaborationFailure::InvalidMatrixLiteral,
        }
    }
}

/// The failure of asking a node without a recorded type for its type.
pub open spec fn untyped() -> ElaborationFailure {
    ElaborationFailure::Type(TypeErrorView::Unsupported("expression has no value type"@))
}

/// The assignment of an environment as a value.
pub open spec fn assigned(environment: &Environment) -> Seq<(ParameterView, u64)> {
    assignment_views(environment.natural_assignment@)
}

/// The value of a natural expression under an assignment, as an elaboration
/// outcome.
pub open spec fn natural_under(e: ExprView, env: Seq<(ParameterView, u64)>) -> Result<u64, ElaborationFailure> {
    match evaluation(e, env, Seq::empty(), Seq::empty()) {
        Ok(n) => Ok(n),
        Err(f) => Err(ElaborationFailure::Natural(f)),
    }
}

/// The recorded type of a node, or the failure of asking for it.
fn symbolic_type(expression: &Expr<TypedMetadata>) -> (ty: Result<TypeExpr<()>, ElaborationError>)
    ensures
        match ty {
            Ok(t) => annotation(*expression) == Some(type_view(t)),
            Err(e) => annotation(*expression) is None && e.failure() == untyped(),
        },
{
    match &expression.meta().0 {
        Some(t) => Ok(t.duplicate()),
        None => Err(ElaborationError::Type(TypeError::Unsupported("expression has no value type"))),
    }
}

/// The value of a natural expression, its failure wrapped.
pub(crate) fn natural_of<M>(environment: &Environment, expression: &Expr<M>) -> (value: Result<u64, ElaborationError>)
    ensures
        match value {
            Ok(n) => natural_under(expression@, assigned(environment)) == Ok::<u64, ElaborationFailure>(n),
            Err(e) => natural_under(expression@, assigned(environment)) == Err::<u64, ElaborationFailure>(e.failure()),
        },
{
    match environment.evaluate_natural(expression) {
        Ok(n) => Ok(n),
        Err(e) => Err(ElaborationError::Natural(e)),
    }
}

// ---------------------------------------------------------------------------
// Sequence types and their elements
// ---------------------------------------------------------------------------

/// The element type and evaluated length of a sequence type; nothing for
/// another type.
pub open spec fn sequence_shape(env: Seq<(ParameterView, u64)>, t: TypeView) -> Result<
    Option<(TypeView, u64)>,
    ElaborationFailure,
> {
    match t {
        TypeView::Sequence(element, length) => match *element {
            ExprView::Type(e) => match natural_under(*length, env) {
                Ok(n) => Ok(Some((e, n))),
                Err(f) => Err(f),
            },
            _ => Err(ElaborationFailure::InvalidOperands("sequence element must be a type expression"@)),
        },
        _ => Ok(None),
    }
}

/// The model of what `sequence_parts` returns.
pub open spec fn parts_view(p: Result<Option<(TypeExpr<()>, u64)>, ElaborationError>) -> Result<
    Option<(TypeView, u64)>,
    ElaborationFailure,
> {
    match p {
        Ok(Some((t, n))) => Ok(Some((type_view(t), n))),
        Ok(None) => Ok(None),
        Err(e) => Err(e.failure()),
    }
}

/// The element type and length of a sequence type.
fn sequence_parts(environment: &Environment, ty: &TypeExpr<()>) -> (parts: Result<Option<(TypeExpr<()>, u64)>, ElaborationError>)
    ensures
        parts_view(parts) == sequence_shape(assigned(environment), type_view(*ty)),
{
    match ty {
        TypeExpr::Sequence(element, length) => match element.raw() {
            RawExpr::Type(element_type) => {
                proof {
                    assert(element@ == ExprView::Type(type_view(*element_type)));
                }
                match natural_of(environment, length) {
                    Ok(n) => Ok(Some((element_type.duplicate(), n))),
                    Err(e) => Err(e),
                }
            },
            _ => {
                proof {
                    assert(!(element@ is Type));
                }
                Err(ElaborationError::InvalidOperands("sequence element must be a type expression"))
            },
        },
        _ => Ok(None),
    }
}

/// `result` is the `k`-th element (one-based) of the sequence variable `e`
/// whose elements have type `element`: the subscript of `e` by the natural
/// literal `k`, typed by the element type opened at `k`.
pub open spec fn subscript_of(result: Expr<TypedMetadata>, e: Expr<TypedMetadata>, element: TypeView, k: u64) -> bool {
    &&& annotation(result) == Some(opened_type(element, ExprView::NatLiteral(k), 0))
    &&& result.node().raw matches RawExpr::Binop(op, base, index)
    &&& op == Binop::SingleSubscript
    &&& base == e
    &&& index.node().raw == RawExpr::<TypedMetadata>::NatLiteral(k)
    &&& annotation(index) == Some(TypeView::Nat)
}

/// Why the elements of a sequence expression cannot be listed, if they can
/// not: its type must be a sequence type of evaluable length, and the
/// expression a variable, a `map` over a range as long as the type says, or a
/// literal as long as the type says.
pub open spec fn materialize_failure(env: Seq<(ParameterView, u64)>, e: Expr<TypedMetadata>) -> Option<ElaborationFailure> {
    match annotation(e) {
        None => Some(untyped()),
        Some(t) => match sequence_shape(env, t) {
            Err(f) => Some(f),
            Ok(None) => Some(ElaborationFailure::InvalidOperands("expression does not evaluate to a sequence"@)),
            Ok(Some((_, n))) => match e.node().raw {
                RawExpr::Variable(_) => None,
                RawExpr::Seqop(SeqOp::Mapped, range, _) => match natural_under(range.from@, env) {
                    Err(f) => Some(f),
                    Ok(from) => match natural_under(range.to@, env) {
                        Err(f) => Some(f),
                        Ok(to) => if from > to {
                            Some(ElaborationFailure::InvalidOperands("map range must be nonempty"@))
                        } else if n > usize::MAX {
                            Some(ElaborationFailure::DimensionOverflow)
                        } else if to - from + 1 != n {
                            Some(ElaborationFailure::InvalidOperands("map range length does not match its sequence type"@))
                        } else {
                            None
                        },
                    },
                },
                RawExpr::Finop(Finop::SeqLiteral, elements) => if n > usize::MAX {
                    Some(ElaborationFailure::DimensionOverflow)
                } else if elements@.len() != n {
                    Some(ElaborationFailure::InvalidOperands("sequence literal length does not match its type"@))
                } else {
                    None
                },
                _ => Some(ElaborationFailure::Unsupported("sequence expression cannot be materialized"@)),
            },
        },
    }
}

/// The elements listed for a sequence expression that `materialize_failure`
/// accepts: the subscripts of a variable by `1` to its length; the body of a
/// `map` with each value of its range substituted for the index; the
/// operands of a literal.
pub open spec fn materialized_as(
    env: Seq<(ParameterView, u64)>,
    e: Expr<TypedMetadata>,
    elements: Seq<Expr<TypedMetadata>>,
) -> bool {
    match annotation(e) {
        Some(t) => match sequence_shape(env, t) {
            Ok(Some((element, n))) => match e.node().raw {
                RawExpr::Variable(_) => elements.len() == n && forall|k: int|
                    0 <= k < n ==> subscript_of(#[trigger] elements[k], e, element, (k + 1) as u64),
                RawExpr::Seqop(_, range, body) => match (natural_under(range.from@, env), natural_under(range.to@, env)) {
                    (Ok(from), Ok(to)) => substituted_range(elements, body, range.index_variable.view_variable(), from, to),
                    _ => false,
                },
                RawExpr::Finop(_, operands) => elements == operands@,
                _ => false,
            },
            _ => false,
        },
        None => false,
    }
}


/// `terms` lists `body` with each of `from` to `to` substituted for `v`,
/// in order.
pub open spec fn substituted_range(terms: Seq<Expr<TypedMetadata>>, body: Expr<TypedMetadata>, v: VariableView, from: u64, to: u64) -> bool {
    &&& terms.len() == to - from + 1
    &&& forall|k: int| 0 <= k < terms.len() ==> {
        &&& (#[trigger] terms[k])@ == index_substituted(body@, v, (from + k) as u64)
        &&& retyped_as(terms[k], body, v, (from + k) as u64)
    }
}

/// `body` with each of `from` to `to` substituted for `variable`.
fn substituted_terms(body: &Expr<TypedMetadata>, variable: &Variable, from: u64, to: u64) -> (terms: Vec<Expr<TypedMetadata>>)
    requires
        from <= to,
        annotations_fit(*body),
    ensures
        substituted_range(terms@, *body, variable.view_variable(), from, to),
{
    let ghost v = variable.view_variable();
    let mut terms: Vec<Expr<TypedMetadata>> = Vec::new();
    let mut index: u64 = from;
    while index < to
        invariant
            from <= index <= to,
            terms@.len() == index - from,
            annotations_fit(*body),
            v == variable.view_variable(),
            forall|k: int| 0 <= k < terms@.len() ==> {
                &&& (#[trigger] terms@[k])@ == index_substituted(body@, v, (from + k) as u64)
                &&& retyped_as(terms@[k], *body, v, (from + k) as u64)
            },
        decreases to - index,
    {
        let next = substitute_index(body, variable, index);
        let ghost before = terms@;
        terms.push(next);
        proof {
            assert forall|k: int| 0 <= k < terms@.len() implies {
                &&& (#[trigger] terms@[k])@ == index_substituted(body@, v, (from + k) as u64)
                &&& retyped_as(terms@[k], *body, v, (from + k) as u64)
            } by {
                if k < before.len() {
                    assert(terms@[k] == before[k]);
                } else {
                    assert((from + k) as u64 == index);
                }
            }
        }
        index = index + 1;
    }
    let last = substitute_index(body, variable, to);
    let ghost before = terms@;
    terms.push(last);
    proof {
        assert forall|k: int| 0 <= k < terms@.len() implies {
            &&& (#[trigger] terms@[k])@ == index_substituted(body@, v, (from + k) as u64)
            &&& retyped_as(terms@[k], *body, v, (from + k) as u64)
        } by {
            if k < before.len() {
                assert(terms@[k] == before[k]);
            } else {
                assert((from + k) as u64 == to);
            }
        }
    }
    terms
}

/// The elements of a sequence expression.
pub fn materialize_sequence(environment: &Environment, expression: &Expr<TypedMetadata>) -> (result: Result<
    Vec<Expr<TypedMetadata>>,
    ElaborationError,
>)
    requires
        annotations_fit(*expression),
    ensures
        match result {
            Ok(elements) => materialize_failure(assigned(environment), *expression) is None && materialized_as(
                assigned(environment),
                *expression,
                elements@,
            ),
            Err(e) => materialize_failure(assigned(environment), *expression) == Some(e.failure()),
        },
{
    let ghost env = assigned(environment);
    let expression_type = match symbolic_type(expression) {
        Ok(t) => t,
        Err(e) => return Err(e),
    };
    let (element_type, length) = match sequence_parts(environment, &expression_type) {
        Ok(Some(parts)) => parts,
        Ok(None) => return Err(ElaborationError::InvalidOperands("expression does not evaluate to a sequence")),
        Err(e) => return Err(e),
    };
    let ghost element = type_view(element_type);
    proof {
        // The element type is a part of the recorded type, which fits.
        let t = type_view(expression_type);
        assert(size(ExprView::Type(t)) <= usize::MAX / 2);
        if let TypeView::Sequence(el, len) = t {
            assert(*el == ExprView::Type(element));
            assert(crate::expression_utils::type_size(t) == size(*el) + size(*len));
            assert(size(ExprView::Type(t)) == 1 + crate::expression_utils::type_size(t));
        }
        assert(size(ExprView::Type(element)) < size(ExprView::Type(t)));
    }
    match expression.raw() {
        RawExpr::Variable(_) => {
            let mut elements: Vec<Expr<TypedMetadata>> = Vec::new();
            let mut index: u64 = 0;
            while index < length
                invariant
                    index <= length,
                    elements@.len() == index,
                    size(ExprView::Type(type_view(element_type))) < usize::MAX / 2,
                    forall|k: int| 0 <= k < index ==> subscript_of(#[trigger] elements@[k], *expression, type_view(element_type), (k + 1) as u64),
                decreases length - index,
            {
                index = index + 1;
                let position: Expr<()> = Expr::new(RawExpr::NatLiteral(index));
                let ty = open_sequence_element(&element_type, &position);
                let literal = Expr::with_metadata(TypedMetadata::resolved(TypeExpr::Nat), RawExpr::NatLiteral(index));
                let subscript = Expr::with_metadata(
                    TypedMetadata::resolved(ty),
                    RawExpr::Binop(Binop::SingleSubscript, expression.share(), literal),
                );
                elements.push(subscript);
            }
            Ok(elements)
        },
        RawExpr::Seqop(SeqOp::Mapped, range, body) => {
            let from = match natural_of(environment, &range.from) {
                Ok(n) => n,
                Err(e) => return Err(e),
            };
            let to = match natural_of(environment, &range.to) {
                Ok(n) => n,
                Err(e) => return Err(e),
            };
            if from > to {
                return Err(ElaborationError::InvalidOperands("map range must be nonempty"));
            }
            if length > usize::MAX as u64 {
                return Err(ElaborationError::DimensionOverflow);
            }
            if length == 0 || to - from != length - 1 {
                return Err(ElaborationError::InvalidOperands("map range length does not match its sequence type"));
            }
            let elements = substituted_terms(body, &range.index_variable, from, to);
            Ok(elements)
        },
        RawExpr::Finop(Finop::SeqLiteral, operands) => {
            if length > usize::MAX as u64 {
                return Err(ElaborationError::DimensionOverflow);
            }
            if operands.len() != length as usize {
                return Err(ElaborationError::InvalidOperands("sequence literal length does not match its type"));
            }
            let mut elements: Vec<Expr<TypedMetadata>> = Vec::new();
            let mut i: usize = 0;
            while i < operands.len()
                invariant
                    i <= operands.len(),
                    elements@ == operands@.take(i as int),
                decreases operands.len() - i,
            {
                elements.push(operands[i].share());
                i = i + 1;
                proof {
                    assert(elements@ =~= operands@.take(i as int));
                }
            }
            proof {
                assert(operands@.take(operands.len() as int) =~= operands@);
            }
            Ok(elements)
        },
        _ => Err(ElaborationError::Unsupported("sequence expression cannot be materialized")),
    }
}


// ---------------------------------------------------------------------------
// Diagonal matrices
// ---------------------------------------------------------------------------

/// `e` is the real literal zero.
pub open spec fn real_zero(e: Expr<TypedMetadata>) -> bool {
    &&& e.node().raw == RawExpr::<TypedMetadata>::NatLiteral(0)
    &&& annotation(e) == Some(TypeView::Real)
}

/// The type of a matrix of literal dimensions.
pub open spec fn literal_matrix_type(rows: usize, cols: usize) -> TypeView {
    TypeView::Matrix(Box::new(ExprView::NatLiteral(rows as u64)), Box::new(ExprView::NatLiteral(cols as u64)))
}

/// `e` is the flat `rows` by `cols` matrix of `cells`, in row-major order,
/// typed as a matrix of those literal dimensions.
pub open spec fn flat_matrix(e: Expr<TypedMetadata>, rows: usize, cols: usize, cells: Seq<Expr<TypedMetadata>>) -> bool {
    &&& annotation(e) == Some(literal_matrix_type(rows, cols))
    &&& e.node().raw matches RawExpr::Matrix(m)
    &&& m.rows == rows
    &&& m.cols == cols
    &&& m.elements@ == cells
}

/// The cells of the square diagonal matrix of `d`: the cell of row `k / n`
/// and column `k % n` holds `d[k / n]` on the diagonal and a real zero off
/// it.
pub open spec fn diagonal_cells(cells: Seq<Expr<TypedMetadata>>, d: Seq<Expr<TypedMetadata>>) -> bool {
    let n = d.len();
    &&& cells.len() == n * n
    &&& forall|k: int| 0 <= k < n * n ==> if k / (n as int) == k % (n as int) {
        #[trigger] cells[k] == d[k / (n as int)]
    } else {
        real_zero(cells[k])
    }
}

/// Why `\operatorname{diag}` of `operand` cannot be elaborated, if it cannot:
/// the operand must be a nonempty sequence of reals, not too long for a
/// square matrix of its length to be counted, and its elements must be
/// listable.
pub open spec fn diagonal_failure(env: Seq<(ParameterView, u64)>, operand: Expr<TypedMetadata>) -> Option<ElaborationFailure> {
    match annotation(operand) {
        None => Some(untyped()),
        Some(t) => match sequence_shape(env, t) {
            Err(f) => Some(f),
            Ok(None) => Some(ElaborationFailure::InvalidOperands("diag operand must be a sequence"@)),
            Ok(Some((element, n))) => if element != TypeView::Real {
                Some(ElaborationFailure::InvalidOperands("diag sequence elements must be real scalars"@))
            } else if n > usize::MAX {
                Some(ElaborationFailure::DimensionOverflow)
            } else if n == 0 {
                Some(ElaborationFailure::Empty("diag operand sequence must be nonempty"@))
            } else if n * n > usize::MAX {
                Some(ElaborationFailure::DimensionOverflow)
            } else {
                materialize_failure(env, operand)
            },
        },
    }
}

/// The real literal zero.
fn real_literal_zero() -> (e: Expr<TypedMetadata>)
    ensures
        real_zero(e),
{
    Expr::with_metadata(TypedMetadata::resolved(TypeExpr::Real), RawExpr::NatLiteral(0))
}

/// The flat matrix of `elements`, typed by its literal dimensions.
pub(crate) fn matrix_expression(rows: usize, cols: usize, elements: Vec<Expr<TypedMetadata>>) -> (e: Expr<TypedMetadata>)
    ensures
        flat_matrix(e, rows, cols, elements@),
{
    let row_count: Expr<()> = Expr::new(RawExpr::NatLiteral(rows as u64));
    let col_count: Expr<()> = Expr::new(RawExpr::NatLiteral(cols as u64));
    proof {
        assert(row_count@ == ExprView::NatLiteral(rows as u64));
        assert(col_count@ == ExprView::NatLiteral(cols as u64));
    }
    let ty: TypeExpr<()> = TypeExpr::Matrix(row_count, col_count);
    let e = Expr::with_metadata(TypedMetadata::resolved(ty), RawExpr::Matrix(Matrix { rows, cols, elements }));
    proof {
        assert(type_view(ty) == literal_matrix_type(rows, cols));
    }
    e
}

/// Elaborates `\operatorname{diag}` for a concrete environment.
pub struct DiagonalVisitor<'a> {
    pub environment: &'a Environment,
}

impl<'a> DiagonalVisitor<'a> {
    pub fn new(environment: &'a Environment) -> (visitor: Self)
        ensures
            visitor.environment == environment,
    {
        DiagonalVisitor { environment }
    }

    /// The square matrix with the elements of the sequence `operand` on its
    /// diagonal and real zeros elsewhere.
    pub fn diagonal(&self, operand: &Expr<TypedMetadata>) -> (result: Result<Expr<TypedMetadata>, ElaborationError>)
        requires
            annotations_fit(*operand),
        ensures
            match result {
                Ok(matrix) => diagonal_failure(assigned(self.environment), *operand) is None && exists|d: Seq<Expr<TypedMetadata>>|
                    #[trigger] materialized_as(assigned(self.environment), *operand, d) && flat_matrix(
                        matrix,
                        d.len() as usize,
                        d.len() as usize,
                        matrix_cells(matrix),
                    ) && diagonal_cells(matrix_cells(matrix), d),
                Err(e) => diagonal_failure(assigned(self.environment), *operand) == Some(e.failure()),
            },
    {
        let environment = self.environment;
        let operand_type = match symbolic_type(operand) {
            Ok(t) => t,
            Err(e) => return Err(e),
        };
        let (element_type, length) = match sequence_parts(environment, &operand_type) {
            Ok(Some(parts)) => parts,
            Ok(None) => return Err(ElaborationError::InvalidOperands("diag operand must be a sequence")),
            Err(e) => return Err(e),
        };
        match element_type {
            TypeExpr::Real => {},
            _ => return Err(ElaborationError::InvalidOperands("diag sequence elements must be real scalars")),
        }
        if length > usize::MAX as u64 {
            return Err(ElaborationError::DimensionOverflow);
        }
        let dimension = length as usize;
        if dimension == 0 {
            return Err(ElaborationError::Empty("diag operand sequence must be nonempty"));
        }
        let element_count = match dimension.checked_mul(dimension) {
            Some(count) => count,
            None => return Err(ElaborationError::DimensionOverflow),
        };
        let sequence_elements = match materialize_sequence(environment, operand) {
            Ok(elements) => elements,
            Err(e) => return Err(e),
        };
        if sequence_elements.len() != dimension {
            return Err(ElaborationError::InvalidOperands("materialized sequence length does not match its type"));
        }
        let ghost d = sequence_elements@;
        let ghost n = dimension as int;
        let mut elements: Vec<Expr<TypedMetadata>> = Vec::with_capacity(element_count);
        let mut row: usize = 0;
        while row < dimension
            invariant
                row <= dimension,
                dimension == sequence_elements@.len(),
                d == sequence_elements@,
                n == dimension,
                elements@.len() == row * n,
                forall|k: int| 0 <= k < elements@.len() ==> if k / n == k % n {
                    #[trigger] elements@[k] == d[k / n]
                } else {
                    real_zero(elements@[k])
                },
            decreases dimension - row,
        {
            let mut col: usize = 0;
            while col < dimension
                invariant
                    row < dimension,
                    col <= dimension,
                    dimension == sequence_elements@.len(),
                    d == sequence_elements@,
                    n == dimension,
                    elements@.len() == row * n + col,
                    forall|k: int| 0 <= k < elements@.len() ==> if k / n == k % n {
                        #[trigger] elements@[k] == d[k / n]
                    } else {
                        real_zero(elements@[k])
                    },
                decreases dimension - col,
            {
                let ghost k = elements@.len() as int;
                proof {
                    vstd::arithmetic::div_mod::lemma_fundamental_div_mod_converse(k, n, row as int, col as int);
                }
                let cell = if row == col {
                    sequence_elements[row].share()
                } else {
                    real_literal_zero()
                };
                elements.push(cell);
                col = col + 1;
            }
            proof {
                assert(row * n + n == (row + 1) * n) by (nonlinear_arith);
            }
            row = row + 1;
        }
        let matrix = matrix_expression(dimension, dimension, elements);
        proof {
            assert(matrix_cells(matrix) == elements@);
            assert(materialized_as(assigned(environment), *operand, d));
            assert(diagonal_cells(matrix_cells(matrix), d));
        }
        Ok(matrix)
    }
}

/// The cells of a flat matrix node, and nothing for another node.
pub open spec fn matrix_cells(e: Expr<TypedMetadata>) -> Seq<Expr<TypedMetadata>> {
    match e.node().raw {
        RawExpr::Matrix(m) => m.elements@,
        _ => Seq::empty(),
    }
}


// ---------------------------------------------------------------------------
// Sequence operations and subscripts
// ---------------------------------------------------------------------------

/// Why a range cannot be expanded, if it cannot: its bounds must evaluate
/// and the range must be nonempty.
pub open spec fn range_failure(env: Seq<(ParameterView, u64)>, range: crate::Range<TypedMetadata>) -> Option<ElaborationFailure> {
    match natural_under(range.from@, env) {
        Err(f) => Some(f),
        Ok(from) => match natural_under(range.to@, env) {
            Err(f) => Some(f),
            Ok(to) => if from > to {
                Some(ElaborationFailure::InvalidOperands("sequence range must be nonempty"@))
            } else {
                None
            },
        },
    }
}

/// `terms` lists the body for each value of the evaluated range.
pub open spec fn range_terms(
    env: Seq<(ParameterView, u64)>,
    range: crate::Range<TypedMetadata>,
    body: Expr<TypedMetadata>,
    terms: Seq<Expr<TypedMetadata>>,
) -> bool {
    match (natural_under(range.from@, env), natural_under(range.to@, env)) {
        (Ok(from), Ok(to)) => substituted_range(terms, body, range.index_variable.view_variable(), from, to),
        _ => false,
    }
}

/// The finite operator that a sum or a product over a range becomes.
pub open spec fn expanded_operator(op: SeqOp) -> Finop {
    if op == SeqOp::Sum { Finop::Plus } else { Finop::Times }
}

/// `result` is the sequence operation `op` over `terms`: a `map` is the
/// sequence literal of the terms; a sum or a product of one term is that
/// term, of more terms their sum or product; the result has the type
/// `result_type` unless it is a lone term.
pub open spec fn expanded_as(op: SeqOp, result_type: TypeView, terms: Seq<Expr<TypedMetadata>>, result: Expr<TypedMetadata>) -> bool {
    if op != SeqOp::Mapped && terms.len() == 1 {
        result == terms[0]
    } else {
        &&& annotation(result) == Some(result_type)
        &&& result.node().raw matches RawExpr::Finop(f, operands)
        &&& f == (if op == SeqOp::Mapped { Finop::SeqLiteral } else { expanded_operator(op) })
        &&& operands@ == terms
    }
}

/// Why `base_{index}` of a sequence variable cannot be elaborated, if it
/// cannot: the base must be a variable of a sequence type whose element is a
/// type and whose length evaluates, and the index must evaluate to a
/// position from one to that length.
pub open spec fn subscript_failure(env: Seq<(ParameterView, u64)>, base: Expr<TypedMetadata>, index: ExprView) -> Option<ElaborationFailure> {
    match base.node().raw {
        RawExpr::Variable(_) => match annotation(base) {
            None => Some(untyped()),
            Some(TypeView::Sequence(element, length)) => match *element {
                ExprView::Type(_) => match natural_under(*length, env) {
                    Err(f) => Some(f),
                    Ok(n) => match natural_under(index, env) {
                        Err(f) => Some(f),
                        Ok(i) => if i == 0 || i > n {
                            Some(ElaborationFailure::InvalidOperands("sequence index is outside its one-based bounds"@))
                        } else {
                            None
                        },
                    },
                },
                _ => Some(ElaborationFailure::InvalidOperands("sequence element must be a type expression"@)),
            },
            Some(_) => Some(ElaborationFailure::InvalidOperands("subscripted variable is not a sequence"@)),
        },
        _ => Some(ElaborationFailure::Unsupported("sequence subscript base must be a variable"@)),
    }
}

/// The scalar variable that stands for element `i` of the sequence variable
/// `x`: the solver name of `x` subscripted by the numeral of `i`.
pub open spec fn element_variable(x: VariableView, i: u64) -> VariableView {
    VariableView {
        name: crate::variable_name(x) + "_{"@ + crate::text::decimal_digits(i as nat) + "}"@,
        subscript: Seq::empty(),
        annotations: Seq::empty(),
    }
}

/// `result` is the element of the sequence variable `base` at the evaluated
/// `index`: the variable standing for it, typed by the element type opened at
/// the index.
pub open spec fn subscripted_as(env: Seq<(ParameterView, u64)>, base: Expr<TypedMetadata>, index: ExprView, result: Expr<TypedMetadata>) -> bool {
    match (base.node().raw, annotation(base), natural_under(index, env)) {
        (RawExpr::Variable(x), Some(TypeView::Sequence(element, _)), Ok(i)) => match *element {
            ExprView::Type(t) => {
                &&& annotation(result) == Some(opened_type(t, index, 0))
                &&& result@ == ExprView::Variable(element_variable(x.view_variable(), i))
            },
            _ => false,
        },
        _ => false,
    }
}

/// Why `base_{index}` of a listable sequence cannot be elaborated, if it
/// cannot: its elements must be listable and the index must evaluate to a
/// position among them.
pub open spec fn listed_subscript_failure(env: Seq<(ParameterView, u64)>, base: Expr<TypedMetadata>, index: ExprView) -> Option<ElaborationFailure> {
    match materialize_failure(env, base) {
        Some(f) => Some(f),
        None => match natural_under(index, env) {
            Err(f) => Some(f),
            Ok(i) => match (annotation(base), sequence_shape(env, annotation(base).unwrap())) {
                (Some(_), Ok(Some((_, n)))) => if i == 0 || i > n {
                    Some(ElaborationFailure::InvalidOperands("sequence index is outside its one-based bounds"@))
                } else {
                    None
                },
                _ => None,
            },
        },
    }
}

/// `element` is the one at the evaluated one-based `index` among `elements`.
pub open spec fn at_position(env: Seq<(ParameterView, u64)>, index: ExprView, elements: Seq<Expr<TypedMetadata>>, element: Expr<TypedMetadata>) -> bool {
    match natural_under(index, env) {
        Ok(i) => 1 <= i <= elements.len() && element == elements[i - 1],
        _ => false,
    }
}

/// Elaborates sequence operations and subscripts for a concrete environment.
pub struct SequenceVisitor<'a> {
    pub environment: &'a Environment,
}

impl<'a> SequenceVisitor<'a> {
    pub fn new(environment: &'a Environment) -> (visitor: Self)
        ensures
            visitor.environment == environment,
    {
        SequenceVisitor { environment }
    }

    /// The variable standing for element `index` of the sequence variable
    /// `base`.
    pub fn subscript(&self, base: &Expr<TypedMetadata>, index: &Expr<TypedMetadata>) -> (result: Result<
        Expr<TypedMetadata>,
        ElaborationError,
    >)
        requires
            annotations_fit(*base),
            size(index@) <= usize::MAX / 2,
            max_bound_index(index@) <= usize::MAX / 2,
        ensures
            match result {
                Ok(element) => subscript_failure(assigned(self.environment), *base, index@) is None && subscripted_as(
                    assigned(self.environment),
                    *base,
                    index@,
                    element,
                ),
                Err(e) => subscript_failure(assigned(self.environment), *base, index@) == Some(e.failure()),
            },
    {
        let environment = self.environment;
        let variable = match base.raw() {
            RawExpr::Variable(variable) => variable,
            _ => return Err(ElaborationError::Unsupported("sequence subscript base must be a variable")),
        };
        let symbolic = match symbolic_type(base) {
            Ok(t) => t,
            Err(e) => return Err(e),
        };
        let (element, length) = match &symbolic {
            TypeExpr::Sequence(element, length) => (element, length),
            _ => return Err(ElaborationError::InvalidOperands("subscripted variable is not a sequence")),
        };
        let element_type = match element.raw() {
            RawExpr::Type(element_type) => element_type,
            _ => {
                proof {
                    assert(!(element@ is Type));
                }
                return Err(ElaborationError::InvalidOperands("sequence element must be a type expression"));
            },
        };
        proof {
            assert(element@ == ExprView::Type(type_view(*element_type)));
            let t = type_view(symbolic);
            assert(crate::expression_utils::type_size(t) == size(element@) + size(length@));
            assert(size(ExprView::Type(t)) == 1 + crate::expression_utils::type_size(t));
        }
        let length = match natural_of(environment, length) {
            Ok(n) => n,
            Err(e) => return Err(e),
        };
        let position: Expr<()> = index.with_default_metadata();
        let ty = open_sequence_element(element_type, &position);
        let value = match natural_of(environment, index) {
            Ok(n) => n,
            Err(e) => return Err(e),
        };
        if value == 0 || value > length {
            return Err(ElaborationError::InvalidOperands("sequence index is outside its one-based bounds"));
        }
        let mut name = variable.z3_name();
        name.append("_{");
        let digits = crate::text::decimal(value);
        name.append(digits.as_str());
        name.append("}");
        let element_variable = Variable::new(name.as_str());
        proof {
            reveal_strlit("_{");
            reveal_strlit("}");
        }
        Ok(Expr::with_metadata(TypedMetadata::resolved(ty), RawExpr::Variable(element_variable)))
    }

    /// The element `index` of a sequence whose elements can be listed.
    pub fn materialized_subscript(&self, base: &Expr<TypedMetadata>, index: &Expr<TypedMetadata>) -> (result: Result<
        Expr<TypedMetadata>,
        ElaborationError,
    >)
        requires
            annotations_fit(*base),
        ensures
            match result {
                Ok(element) => listed_subscript_failure(assigned(self.environment), *base, index@) is None
                    && exists|elements: Seq<Expr<TypedMetadata>>|
                    #[trigger] materialized_as(assigned(self.environment), *base, elements) && at_position(
                        assigned(self.environment),
                        index@,
                        elements,
                        element,
                    ),
                Err(e) => listed_subscript_failure(assigned(self.environment), *base, index@) == Some(e.failure()),
            },
    {
        let environment = self.environment;
        let elements = match materialize_sequence(environment, base) {
            Ok(elements) => elements,
            Err(e) => return Err(e),
        };
        let value = match natural_of(environment, index) {
            Ok(n) => n,
            Err(e) => return Err(e),
        };
        if value == 0 {
            return Err(ElaborationError::InvalidOperands("sequence index is outside its one-based bounds"));
        }
        let position = value - 1;
        if position >= elements.len() as u64 {
            return Err(ElaborationError::InvalidOperands("sequence index is outside its one-based bounds"));
        }
        let element = elements[position as usize].share();
        proof {
            assert(materialized_as(assigned(environment), *base, elements@));
        }
        Ok(element)
    }

    /// The sequence operation `op` of `body` over `range`, expanded over the
    /// evaluated range.
    pub fn sequence(
        &self,
        op: SeqOp,
        range: &crate::Range<TypedMetadata>,
        body: &Expr<TypedMetadata>,
        result_type: TypeExpr<()>,
    ) -> (result: Result<Expr<TypedMetadata>, ElaborationError>)
        requires
            annotations_fit(*body),
        ensures
            match result {
                Ok(expanded) => range_failure(assigned(self.environment), *range) is None && exists|terms: Seq<Expr<TypedMetadata>>|
                    #[trigger] range_terms(assigned(self.environment), *range, *body, terms) && expanded_as(
                        op,
                        type_view(result_type),
                        terms,
                        expanded,
                    ),
                Err(e) => range_failure(assigned(self.environment), *range) == Some(e.failure()),
            },
    {
        let environment = self.environment;
        let from = match natural_of(environment, &range.from) {
            Ok(n) => n,
            Err(e) => return Err(e),
        };
        let to = match natural_of(environment, &range.to) {
            Ok(n) => n,
            Err(e) => return Err(e),
        };
        if from > to {
            return Err(ElaborationError::InvalidOperands("sequence range must be nonempty"));
        }
        let mut terms = substituted_terms(body, &range.index_variable, from, to);
        let ghost listed = terms@;
        proof {
            assert(range_terms(assigned(environment), *range, *body, listed));
        }
        let finop = match op {
            SeqOp::Sum => Finop::Plus,
            SeqOp::Prod => Finop::Times,
            SeqOp::Mapped => {
                return Ok(Expr::with_metadata(TypedMetadata::resolved(result_type), RawExpr::Finop(Finop::SeqLiteral, terms)));
            },
        };
        if terms.len() == 1 {
            let term = terms.pop().unwrap();
            return Ok(term);
        }
        Ok(Expr::with_metadata(TypedMetadata::resolved(result_type), RawExpr::Finop(finop, terms)))
    }
}


// ---------------------------------------------------------------------------
// Type membership
// ---------------------------------------------------------------------------

/// Whether two types are equal for a concrete environment: scalar types by
/// kind, matrix types by their evaluated dimensions, sequence types by their
/// evaluated lengths and then their element types; the dimensions of the
/// left type are evaluated before those of the right.
pub open spec fn types_agree(env: Seq<(ParameterView, u64)>, left: TypeView, right: TypeView) -> Result<bool, ElaborationFailure>
    decreases left,
{
    match (left, right) {
        (TypeView::Bool, TypeView::Bool) | (TypeView::Nat, TypeView::Nat) | (TypeView::Int, TypeView::Int) | (
            TypeView::Real,
            TypeView::Real,
        ) => Ok(true),
        (TypeView::Matrix(lr, lc), TypeView::Matrix(rr, rc)) => match natural_under(*lr, env) {
            Err(f) => Err(f),
            Ok(a) => match natural_under(*lc, env) {
                Err(f) => Err(f),
                Ok(b) => match natural_under(*rr, env) {
                    Err(f) => Err(f),
                    Ok(c) => match natural_under(*rc, env) {
                        Err(f) => Err(f),
                        Ok(d) => Ok(a == c && b == d),
                    },
                },
            },
        },
        (TypeView::Sequence(le, ll), TypeView::Sequence(_, _)) => match sequence_shape(env, left) {
            Err(f) => Err(f),
            Ok(left_parts) => match sequence_shape(env, right) {
                Err(f) => Err(f),
                Ok(right_parts) => match (*le, left_parts, right_parts) {
                    (ExprView::Type(lt), Some((_, m)), Some((rt, n))) => if m != n {
                        Ok(false)
                    } else {
                        types_agree(env, lt, rt)
                    },
                    _ => Ok(false),
                },
            },
        },
        _ => Ok(false),
    }
}

/// Whether two types are equal for a concrete environment.
fn types_equal<A, B>(environment: &Environment, left: &TypeExpr<A>, right: &TypeExpr<B>) -> (equal: Result<bool, ElaborationError>)
    ensures
        match equal {
            Ok(b) => types_agree(assigned(environment), type_view(*left), type_view(*right)) == Ok::<bool, ElaborationFailure>(b),
            Err(e) => types_agree(assigned(environment), type_view(*left), type_view(*right)) == Err::<bool, ElaborationFailure>(e.failure()),
        },
    decreases *left,
{
    match (left, right) {
        (TypeExpr::Bool, TypeExpr::Bool) | (TypeExpr::Nat, TypeExpr::Nat) | (TypeExpr::Int, TypeExpr::Int) | (
            TypeExpr::Real,
            TypeExpr::Real,
        ) => Ok(true),
        (TypeExpr::Matrix(lr, lc), TypeExpr::Matrix(rr, rc)) => {
            let a = match natural_of(environment, lr) {
                Ok(n) => n,
                Err(e) => return Err(e),
            };
            let b = match natural_of(environment, lc) {
                Ok(n) => n,
                Err(e) => return Err(e),
            };
            let c = match natural_of(environment, rr) {
                Ok(n) => n,
                Err(e) => return Err(e),
            };
            let d = match natural_of(environment, rc) {
                Ok(n) => n,
                Err(e) => return Err(e),
            };
            Ok(a == c && b == d)
        },
        (TypeExpr::Sequence(le, ll), TypeExpr::Sequence(re, rl)) => {
            let left_type = match le.raw() {
                RawExpr::Type(t) => {
                    proof {
                        assert(le@ == ExprView::Type(type_view(*t)));
                    }
                    t
                },
                _ => {
                    proof {
                        assert(!(le@ is Type));
                    }
                    return Err(ElaborationError::InvalidOperands("sequence element must be a type expression"));
                },
            };
            let m = match natural_of(environment, ll) {
                Ok(n) => n,
                Err(e) => return Err(e),
            };
            let right_type = match re.raw() {
                RawExpr::Type(t) => {
                    proof {
                        assert(re@ == ExprView::Type(type_view(*t)));
                    }
                    t
                },
                _ => {
                    proof {
                        assert(!(re@ is Type));
                    }
                    return Err(ElaborationError::InvalidOperands("sequence element must be a type expression"));
                },
            };
            let n = match natural_of(environment, rl) {
                Ok(n) => n,
                Err(e) => return Err(e),
            };
            if m != n {
                return Ok(false);
            }
            proof {
                assert(decreases_to!(*left => le));
            }
            types_equal(environment, left_type, right_type)
        },
        _ => Ok(false),
    }
}

/// The natural literal zero.
pub open spec fn natural_zero(e: Expr<TypedMetadata>) -> bool {
    &&& e.node().raw == RawExpr::<TypedMetadata>::NatLiteral(0)
    &&& annotation(e) == Some(TypeView::Nat)
}

/// `e` is the Boolean comparison of `start` with a natural zero by `op`.
pub open spec fn compared_with_zero(e: Expr<TypedMetadata>, start: spec_fn(Expr<TypedMetadata>) -> bool, op: crate::Cmp) -> bool {
    &&& annotation(e) == Some(TypeView::Bool)
    &&& e.node().raw matches RawExpr::CmpChain(chain)
    &&& start(chain.start)
    &&& chain.assertions@.len() == 1
    &&& chain.assertions@[0].0 == op
    &&& natural_zero(chain.assertions@[0].1)
}

/// `e` is the Boolean constant `value`, written `0 = 0` or `0 \neq 0`.
pub open spec fn boolean_constant(e: Expr<TypedMetadata>, value: bool) -> bool {
    compared_with_zero(e, |s: Expr<TypedMetadata>| natural_zero(s), if value { crate::Cmp::Eq } else { crate::Cmp::Ne })
}

/// What a type membership `left \in right` becomes.
pub enum MembershipVerdict {
    /// It cannot hold: the Boolean constant false.
    Never,
    /// A natural subject: the comparison `left \geq 0`.
    NonNegative,
    /// It holds: the Boolean constant true.
    Always,
}

/// What the membership of `left` in the type written by `right` becomes,
/// or why it cannot be decided: the right side must be a type; a subject of
/// a numeric type is a real, and otherwise the types must agree, which a
/// required membership (`InDomain`) insists on; a natural subject must be
/// nonnegative; nested sequences are not decided.
pub open spec fn membership(env: Seq<(ParameterView, u64)>, left: Expr<TypedMetadata>, right: ExprView, required: bool) -> Result<
    MembershipVerdict,
    ElaborationFailure,
> {
    match right {
        ExprView::Type(expected) => match annotation(left) {
            None => Err(untyped()),
            Some(actual) => {
                let numeric_real = expected == TypeView::Real && (actual == TypeView::Nat || actual == TypeView::Int
                    || actual == TypeView::Real);
                let agreement = if numeric_real { Ok(true) } else { types_agree(env, actual, expected) };
                match agreement {
                    Err(f) => Err(f),
                    Ok(false) => if required {
                        Err(ElaborationFailure::Shape("set membership subject has incompatible domain dimensions or type"@))
                    } else {
                        Ok(MembershipVerdict::Never)
                    },
                    Ok(true) => if actual == TypeView::Nat {
                        Ok(MembershipVerdict::NonNegative)
                    } else if actual matches TypeView::Sequence(element, _) && *element matches ExprView::Type(
                        TypeView::Sequence(_, _),
                    ) {
                        Err(ElaborationFailure::Unsupported("nested sequence membership is not supported"@))
                    } else {
                        Ok(MembershipVerdict::Always)
                    },
                }
            },
        },
        _ => Err(ElaborationFailure::InvalidOperands("type membership requires a type expression"@)),
    }
}

/// `e` is the expression of `verdict` for the subject `left`.
pub open spec fn membership_as(verdict: MembershipVerdict, left: Expr<TypedMetadata>, e: Expr<TypedMetadata>) -> bool {
    match verdict {
        MembershipVerdict::Never => boolean_constant(e, false),
        MembershipVerdict::Always => boolean_constant(e, true),
        MembershipVerdict::NonNegative => compared_with_zero(e, |s: Expr<TypedMetadata>| s == left, crate::Cmp::Ge),
    }
}

fn natural_literal_zero() -> (e: Expr<TypedMetadata>)
    ensures
        natural_zero(e),
{
    Expr::with_metadata(TypedMetadata::resolved(TypeExpr::Nat), RawExpr::NatLiteral(0))
}

/// The comparison `start op 0`, a Boolean.
fn compare_with_zero(start: Expr<TypedMetadata>, op: crate::Cmp) -> (e: Expr<TypedMetadata>)
    ensures
        compared_with_zero(e, |s: Expr<TypedMetadata>| s == start, op),
{
    let zero = natural_literal_zero();
    let chain = crate::CmpChain { start, assertions: vec![(op, zero)] };
    Expr::with_metadata(TypedMetadata::resolved(TypeExpr::Bool), RawExpr::CmpChain(chain))
}

/// The Boolean constant `value`.
fn boolean(value: bool) -> (e: Expr<TypedMetadata>)
    ensures
        boolean_constant(e, value),
{
    let op = if value { crate::Cmp::Eq } else { crate::Cmp::Ne };
    compare_with_zero(natural_literal_zero(), op)
}

/// Decides type memberships for a concrete environment.
pub struct MembershipVisitor<'a> {
    pub environment: &'a Environment,
}

impl<'a> MembershipVisitor<'a> {
    pub fn new(environment: &'a Environment) -> (visitor: Self)
        ensures
            visitor.environment == environment,
    {
        MembershipVisitor { environment }
    }

    /// What `left \in right` becomes; `required` for a membership in the
    /// domain of a set comprehension.
    pub fn replacement(&self, left: &Expr<TypedMetadata>, right: &Expr<TypedMetadata>, required: bool) -> (result: Result<
        Expr<TypedMetadata>,
        ElaborationError,
    >)
        ensures
            match result {
                Ok(e) => membership(assigned(self.environment), *left, right@, required) matches Ok(verdict) && membership_as(
                    verdict,
                    *left,
                    e,
                ),
                Err(e) => membership(assigned(self.environment), *left, right@, required) == Err::<
                    MembershipVerdict,
                    ElaborationFailure,
                >(e.failure()),
            },
    {
        let expected = match right.raw() {
            RawExpr::Type(expected) => expected,
            _ => {
                proof {
                    assert(!(right@ is Type));
                }
                return Err(ElaborationError::InvalidOperands("type membership requires a type expression"));
            },
        };
        proof {
            assert(right@ == ExprView::Type(type_view(*expected)));
        }
        let actual = match symbolic_type(left) {
            Ok(t) => t,
            Err(e) => return Err(e),
        };
        let numeric_real = match (expected, &actual) {
            (TypeExpr::Real, TypeExpr::Nat) | (TypeExpr::Real, TypeExpr::Int) | (TypeExpr::Real, TypeExpr::Real) => true,
            _ => false,
        };
        if !numeric_real {
            let agree = match types_equal(self.environment, &actual, expected) {
                Ok(b) => b,
                Err(e) => return Err(e),
            };
            if !agree {
                if required {
                    return Err(
                        ElaborationError::Shape("set membership subject has incompatible domain dimensions or type"),
                    );
                }
                return Ok(boolean(false));
            }
        }
        match &actual {
            TypeExpr::Nat => return Ok(compare_with_zero(left.share(), crate::Cmp::Ge)),
            TypeExpr::Sequence(element, _) => match element.raw() {
                RawExpr::Type(inner) => {
                    proof {
                        assert(element@ == ExprView::Type(type_view(*inner)));
                    }
                    if let TypeExpr::Sequence(_, _) = inner {
                        return Err(ElaborationError::Unsupported("nested sequence membership is not supported"));
                    }
                },
                _ => {
                    proof {
                        assert(!(element@ is Type));
                    }
                },
            },
            _ => {},
        }
        Ok(boolean(true))
    }
}


// ---------------------------------------------------------------------------
// Concrete leaves
// ---------------------------------------------------------------------------

/// `e` is the real literal `value`.
pub open spec fn real_literal(e: Expr<TypedMetadata>, value: u64) -> bool {
    &&& e.node().raw == RawExpr::<TypedMetadata>::NatLiteral(value)
    &&& annotation(e) == Some(TypeView::Real)
}

/// The value an environment assigns an implicit dimension.
pub open spec fn implicit_value(env: Seq<(ParameterView, u64)>, nonce: u64) -> Result<u64, ElaborationFailure> {
    match crate::natural::first_assigned(env, ParameterView::Implicit(nonce)) {
        Some(value) => Ok(value),
        None => Err(ElaborationFailure::Natural(NaturalFailure::MissingAssignment(ParameterView::Implicit(nonce)))),
    }
}

/// The scalar variable that stands for the cell of row `row` and column
/// `col` (one-based) of the matrix variable `x`.
pub open spec fn cell_variable(x: VariableView, row: nat, col: nat) -> VariableView {
    VariableView {
        name: crate::variable_name(x) + "_{"@ + crate::text::decimal_digits(row) + ","@ + crate::text::decimal_digits(col)
            + "}"@,
        subscript: Seq::empty(),
        annotations: Seq::empty(),
    }
}

/// Why a leaf cannot be made concrete, if it cannot: its implicit
/// dimensions must be assigned, a standard basis index must evaluate to a
/// position within its dimension, and dimensions must fit in memory sizes.
pub open spec fn leaf_failure(env: Seq<(ParameterView, u64)>, node: Expr<TypedMetadata>) -> Option<ElaborationFailure> {
    match node.node().raw {
        RawExpr::ImplicitDimension(d) => match implicit_value(env, d.nonce()) {
            Err(f) => Some(f),
            Ok(_) => None,
        },
        RawExpr::IdentityMatrix { dimension } => match implicit_value(env, dimension.nonce()) {
            Err(f) => Some(f),
            Ok(n) => if n > usize::MAX { Some(ElaborationFailure::DimensionOverflow) } else { None },
        },
        RawExpr::StandardBasis { index, dimension } => match implicit_value(env, dimension.nonce()) {
            Err(f) => Some(f),
            Ok(n) => match natural_under(index@, env) {
                Err(f) => Some(f),
                Ok(i) => if i == 0 || i > n {
                    Some(ElaborationFailure::InvalidOperands("standard basis index is outside its one-based bounds"@))
                } else if n > usize::MAX {
                    Some(ElaborationFailure::DimensionOverflow)
                } else {
                    None
                },
            },
        },
        RawExpr::ZeroMatrix { rows, cols } => match implicit_value(env, rows.nonce()) {
            Err(f) => Some(f),
            Ok(r) => if r > usize::MAX {
                Some(ElaborationFailure::DimensionOverflow)
            } else {
                match implicit_value(env, cols.nonce()) {
                    Err(f) => Some(f),
                    Ok(c) => if c > usize::MAX || r * c > usize::MAX {
                        Some(ElaborationFailure::DimensionOverflow)
                    } else {
                        None
                    },
                }
            },
        },
        RawExpr::Variable(_) => match annotation(node) {
            Some(TypeView::Matrix(rows, cols)) => match natural_under(*rows, env) {
                Err(f) => Some(f),
                Ok(r) => match natural_under(*cols, env) {
                    Err(f) => Some(f),
                    Ok(c) => if r > usize::MAX || c > usize::MAX || r * c > usize::MAX {
                        Some(ElaborationFailure::DimensionOverflow)
                    } else {
                        None
                    },
                },
            },
            _ => None,
        },
        _ => None,
    }
}

/// `result` is what a leaf becomes for a concrete environment: an implicit
/// dimension its natural value; an identity, standard basis or zero matrix
/// the flat matrix of its real cells; a matrix variable the flat matrix of
/// the real variables standing for its cells, in row-major order; any other
/// node nothing.
pub open spec fn leaf_as(env: Seq<(ParameterView, u64)>, node: Expr<TypedMetadata>, result: Option<Expr<TypedMetadata>>) -> bool {
    match node.node().raw {
        RawExpr::ImplicitDimension(d) => match (implicit_value(env, d.nonce()), result) {
            (Ok(n), Some(e)) => e.node().raw == RawExpr::<TypedMetadata>::NatLiteral(n) && annotation(e) == Some(
                TypeView::Nat,
            ),
            _ => false,
        },
        RawExpr::IdentityMatrix { dimension } => match (implicit_value(env, dimension.nonce()), result) {
            (Ok(n), Some(e)) => flat_matrix(e, n as usize, n as usize, matrix_cells(e)) && matrix_cells(e).len() == n * n
                && forall|k: int|
                0 <= k < n * n ==> real_literal(#[trigger] matrix_cells(e)[k], if k / (n as int) == k % (n as int) {
                    1
                } else {
                    0
                }),
            _ => false,
        },
        RawExpr::StandardBasis { index, dimension } => match (
            implicit_value(env, dimension.nonce()),
            natural_under(index@, env),
            result,
        ) {
            (Ok(n), Ok(i), Some(e)) => flat_matrix(e, n as usize, 1, matrix_cells(e)) && matrix_cells(e).len() == n
                && forall|k: int| 0 <= k < n ==> real_literal(#[trigger] matrix_cells(e)[k], if k + 1 == i { 1 } else { 0 }),
            _ => false,
        },
        RawExpr::ZeroMatrix { rows, cols } => match (implicit_value(env, rows.nonce()), implicit_value(env, cols.nonce()), result) {
            (Ok(r), Ok(c), Some(e)) => flat_matrix(e, r as usize, c as usize, matrix_cells(e)) && matrix_cells(e).len()
                == r * c && forall|k: int| 0 <= k < r * c ==> real_zero(#[trigger] matrix_cells(e)[k]),
            _ => false,
        },
        RawExpr::Variable(x) => match annotation(node) {
            Some(TypeView::Matrix(rows, cols)) => match (natural_under(*rows, env), natural_under(*cols, env), result) {
                (Ok(r), Ok(c), Some(e)) => flat_matrix(e, r as usize, c as usize, matrix_cells(e)) && matrix_cells(e).len()
                    == r * c && forall|k: int|
                    0 <= k < r * c ==> {
                        &&& annotation(#[trigger] matrix_cells(e)[k]) == Some(TypeView::Real)
                        &&& matrix_cells(e)[k]@ == ExprView::Variable(
                            cell_variable(x.view_variable(), (k / (c as int) + 1) as nat, (k % (c as int) + 1) as nat),
                        )
                    },
                _ => false,
            },
            _ => result is None,
        },
        _ => result is None,
    }
}

/// The real literal `value`.
fn real_literal_of(value: u64) -> (e: Expr<TypedMetadata>)
    ensures
        real_literal(e, value),
{
    Expr::with_metadata(TypedMetadata::resolved(TypeExpr::Real), RawExpr::NatLiteral(value))
}

/// Makes leaves concrete for a concrete environment.
pub struct ConcreteLeafVisitor<'a> {
    pub environment: &'a Environment,
}

impl<'a> ConcreteLeafVisitor<'a> {
    pub fn new(environment: &'a Environment) -> (visitor: Self)
        ensures
            visitor.environment == environment,
    {
        ConcreteLeafVisitor { environment }
    }

    /// The value assigned an implicit dimension.
    pub fn implicit(&self, dimension: crate::ImplicitDimension) -> (value: Result<u64, ElaborationError>)
        ensures
            match value {
                Ok(n) => implicit_value(assigned(self.environment), dimension.nonce()) == Ok::<u64, ElaborationFailure>(n),
                Err(e) => implicit_value(assigned(self.environment), dimension.nonce()) == Err::<u64, ElaborationFailure>(
                    e.failure(),
                ),
            },
    {
        let parameter = crate::NaturalParameter::ImplicitDimension(dimension);
        match crate::natural::lookup_assignment(&self.environment.natural_assignment, &parameter) {
            Some(value) => Ok(value),
            None => Err(ElaborationError::Natural(crate::NaturalEvaluationError::MissingAssignment(parameter))),
        }
    }

    /// The flat matrix of the real variables standing for the cells of a
    /// matrix variable; nothing for a variable of another type.
    pub fn variable(&self, variable: &crate::Variable, ty: &TypeExpr<()>) -> (result: Result<
        Option<Expr<TypedMetadata>>,
        ElaborationError,
    >)
        ensures
            match result {
                Ok(replacement) => match type_view(*ty) {
                    TypeView::Matrix(rows, cols) => match (
                        natural_under(*rows, assigned(self.environment)),
                        natural_under(*cols, assigned(self.environment)),
                        replacement,
                    ) {
                        (Ok(r), Ok(c), Some(e)) => r <= usize::MAX && c <= usize::MAX && r * c <= usize::MAX && flat_matrix(
                            e,
                            r as usize,
                            c as usize,
                            matrix_cells(e),
                        ) && matrix_cells(e).len() == r * c && forall|k: int|
                            0 <= k < r * c ==> {
                                &&& annotation(#[trigger] matrix_cells(e)[k]) == Some(TypeView::Real)
                                &&& matrix_cells(e)[k]@ == ExprView::Variable(
                                    cell_variable(
                                        variable.view_variable(),
                                        (k / (c as int) + 1) as nat,
                                        (k % (c as int) + 1) as nat,
                                    ),
                                )
                            },
                        _ => false,
                    },
                    _ => replacement is None,
                },
                Err(e) => match type_view(*ty) {
                    TypeView::Matrix(rows, cols) => match natural_under(*rows, assigned(self.environment)) {
                        Err(f) => f == e.failure(),
                        Ok(r) => match natural_under(*cols, assigned(self.environment)) {
                            Err(f) => f == e.failure(),
                            Ok(c) => (r > usize::MAX || c > usize::MAX || r * c > usize::MAX) && e.failure()
                                == ElaborationFailure::DimensionOverflow,
                        },
                    },
                    _ => false,
                },
            },
    {
        let (rows, cols) = match ty {
            TypeExpr::Matrix(rows, cols) => (rows, cols),
            _ => return Ok(None),
        };
        let rows = match natural_of(self.environment, rows) {
            Ok(n) => n,
            Err(e) => return Err(e),
        };
        let cols = match natural_of(self.environment, cols) {
            Ok(n) => n,
            Err(e) => return Err(e),
        };
        if rows > usize::MAX as u64 || cols > usize::MAX as u64 {
            return Err(ElaborationError::DimensionOverflow);
        }
        let rows = rows as usize;
        let cols = cols as usize;
        if rows.checked_mul(cols).is_none() {
            return Err(ElaborationError::DimensionOverflow);
        }
        let ghost width = cols as int;
        let ghost x = variable.view_variable();
        let base = variable.z3_name();
        let mut elements: Vec<Expr<TypedMetadata>> = Vec::new();
        let mut row: usize = 0;
        while row < rows
            invariant
                row <= rows,
                width == cols,
                x == variable.view_variable(),
                base@ == crate::variable_name(x),
                elements@.len() == row * width,
                forall|k: int|
                    0 <= k < elements@.len() ==> {
                        &&& annotation(#[trigger] elements@[k]) == Some(TypeView::Real)
                        &&& elements@[k]@ == ExprView::Variable(
                            cell_variable(x, (k / width + 1) as nat, (k % width + 1) as nat),
                        )
                    },
            decreases rows - row,
        {
            let mut col: usize = 0;
            while col < cols
                invariant
                    row < rows,
                    col <= cols,
                    width == cols,
                    x == variable.view_variable(),
                    base@ == crate::variable_name(x),
                    elements@.len() == row * width + col,
                    forall|k: int|
                        0 <= k < elements@.len() ==> {
                            &&& annotation(#[trigger] elements@[k]) == Some(TypeView::Real)
                            &&& elements@[k]@ == ExprView::Variable(
                                cell_variable(x, (k / width + 1) as nat, (k % width + 1) as nat),
                            )
                        },
                decreases cols - col,
            {
                let mut name = base.clone();
                name.append("_{");
                let row_digits = crate::text::decimal((row + 1) as u64);
                name.append(row_digits.as_str());
                name.append(",");
                let col_digits = crate::text::decimal((col + 1) as u64);
                name.append(col_digits.as_str());
                name.append("}");
                proof {
                    reveal_strlit("_{");
                    reveal_strlit(",");
                    reveal_strlit("}");
                    vstd::arithmetic::div_mod::lemma_fundamental_div_mod_converse(
                        elements@.len() as int,
                        width,
                        row as int,
                        col as int,
                    );
                }
                let cell = Expr::with_metadata(
                    TypedMetadata::resolved(TypeExpr::Real),
                    RawExpr::Variable(crate::Variable::new(name.as_str())),
                );
                elements.push(cell);
                col = col + 1;
            }
            proof {
                assert(row * width + width == (row + 1) * width) by (nonlinear_arith);
            }
            row = row + 1;
        }
        let ghost listed = elements@;
        let matrix = matrix_expression(rows, cols, elements);
        proof {
            assert(matrix_cells(matrix) == listed);
        }
        Ok(Some(matrix))
    }
}


impl<'a> ConcreteLeafVisitor<'a> {
    /// What a leaf becomes for the environment, or nothing for a node that
    /// is not a concrete leaf.
    pub fn replacement(&self, node: &Expr<TypedMetadata>) -> (result: Result<Option<Expr<TypedMetadata>>, ElaborationError>)
        ensures
            match result {
                Ok(replacement) => leaf_failure(assigned(self.environment), *node) is None && leaf_as(
                    assigned(self.environment),
                    *node,
                    replacement,
                ),
                Err(e) => leaf_failure(assigned(self.environment), *node) == Some(e.failure()),
            },
    {
        match node.raw() {
            RawExpr::ImplicitDimension(dimension) => {
                let value = match self.implicit(*dimension) {
                    Ok(n) => n,
                    Err(e) => return Err(e),
                };
                Ok(Some(Expr::with_metadata(TypedMetadata::resolved(TypeExpr::Nat), RawExpr::NatLiteral(value))))
            },
            RawExpr::IdentityMatrix { dimension } => {
                let value = match self.implicit(*dimension) {
                    Ok(n) => n,
                    Err(e) => return Err(e),
                };
                if value > usize::MAX as u64 {
                    return Err(ElaborationError::DimensionOverflow);
                }
                let n = value as usize;
                let ghost width = n as int;
                let mut elements: Vec<Expr<TypedMetadata>> = Vec::new();
                let mut row: usize = 0;
                while row < n
                    invariant
                        row <= n,
                        width == n,
                        elements@.len() == row * width,
                        forall|k: int| 0 <= k < elements@.len() ==> real_literal(#[trigger] elements@[k], if k / width == k % width {
                            1
                        } else {
                            0
                        }),
                    decreases n - row,
                {
                    let mut col: usize = 0;
                    while col < n
                        invariant
                            row < n,
                            col <= n,
                            width == n,
                            elements@.len() == row * width + col,
                            forall|k: int| 0 <= k < elements@.len() ==> real_literal(#[trigger] elements@[k], if k / width == k % width {
                                1
                            } else {
                                0
                            }),
                        decreases n - col,
                    {
                        proof {
                            vstd::arithmetic::div_mod::lemma_fundamental_div_mod_converse(
                                elements@.len() as int,
                                width,
                                row as int,
                                col as int,
                            );
                        }
                        elements.push(real_literal_of(if row == col { 1 } else { 0 }));
                        col = col + 1;
                    }
                    proof {
                        assert(row * width + width == (row + 1) * width) by (nonlinear_arith);
                    }
                    row = row + 1;
                }
                let ghost listed = elements@;
                let matrix = matrix_expression(n, n, elements);
                proof {
                    assert(matrix_cells(matrix) == listed);
                }
                Ok(Some(matrix))
            },
            RawExpr::StandardBasis { index, dimension } => {
                let value = match self.implicit(*dimension) {
                    Ok(n) => n,
                    Err(e) => return Err(e),
                };
                let position = match natural_of(self.environment, index) {
                    Ok(i) => i,
                    Err(e) => return Err(e),
                };
                if position == 0 || position > value {
                    return Err(ElaborationError::InvalidOperands("standard basis index is outside its one-based bounds"));
                }
                if value > usize::MAX as u64 {
                    return Err(ElaborationError::DimensionOverflow);
                }
                let n = value as usize;
                let mut elements: Vec<Expr<TypedMetadata>> = Vec::new();
                let mut k: usize = 0;
                while k < n
                    invariant
                        k <= n,
                        elements@.len() == k,
                        forall|j: int| 0 <= j < k ==> real_literal(#[trigger] elements@[j], if j + 1 == position { 1 } else { 0 }),
                    decreases n - k,
                {
                    elements.push(real_literal_of(if k as u64 + 1 == position { 1 } else { 0 }));
                    k = k + 1;
                }
                let ghost listed = elements@;
                let matrix = matrix_expression(n, 1, elements);
                proof {
                    assert(matrix_cells(matrix) == listed);
                }
                Ok(Some(matrix))
            },
            RawExpr::ZeroMatrix { rows, cols } => {
                let row_count = match self.implicit(*rows) {
                    Ok(n) => n,
                    Err(e) => return Err(e),
                };
                if row_count > usize::MAX as u64 {
                    return Err(ElaborationError::DimensionOverflow);
                }
                let col_count = match self.implicit(*cols) {
                    Ok(n) => n,
                    Err(e) => return Err(e),
                };
                if col_count > usize::MAX as u64 {
                    return Err(ElaborationError::DimensionOverflow);
                }
                let r = row_count as usize;
                let c = col_count as usize;
                let count = match r.checked_mul(c) {
                    Some(count) => count,
                    None => return Err(ElaborationError::DimensionOverflow),
                };
                let mut elements: Vec<Expr<TypedMetadata>> = Vec::new();
                let mut k: usize = 0;
                while k < count
                    invariant
                        k <= count,
                        elements@.len() == k,
                        forall|j: int| 0 <= j < k ==> real_zero(#[trigger] elements@[j]),
                    decreases count - k,
                {
                    elements.push(real_literal_zero());
                    k = k + 1;
                }
                let ghost listed = elements@;
                let matrix = matrix_expression(r, c, elements);
                proof {
                    assert(matrix_cells(matrix) == listed);
                }
                Ok(Some(matrix))
            },
            RawExpr::Variable(variable) => match &node.meta().0 {
                Some(ty) => self.variable(variable, ty),
                None => Ok(None),
            },
            _ => Ok(None),
        }
    }
}

} // verus!
