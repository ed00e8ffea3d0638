//! Evaluation of the natural-valued expressions that occur as dimensions,
//! sequence lengths and range bounds.
use vstd::prelude::*;

use crate::view::{lemma_views, views, ExprView, ParameterView, VariableView};
use crate::{
    DeBruijnIndex, Environment, Expr, Finop, ImplicitDimension, Monop, NaturalEvaluationError,
    NaturalParameter, RawExpr, Variable,
};

verus! {

/// The model of an evaluation failure.
pub enum NaturalFailure {
    MissingAssignment(ParameterView),
    UnsupportedSyntax(Seq<char>),
    EmptyOperation(Seq<char>),
    NotANumeral,
    Overflow,
    UnboundNatural(usize),
}

impl NaturalEvaluationError {
    pub open spec fn failure(&self) -> NaturalFailure {
        match self {
            NaturalEvaluationError::MissingAssignment(p) => NaturalFailure::MissingAssignment(p.view_parameter()),
            NaturalEvaluationError::UnsupportedSyntax(s) => NaturalFailure::UnsupportedSyntax(s@),
            NaturalEvaluationError::EmptyOperation(s) => NaturalFailure::EmptyOperation(s@),
            NaturalEvaluationError::NotANumeral => NaturalFailure::NotANumeral,
            NaturalEvaluationError::Overflow => NaturalFailure::Overflow,
            NaturalEvaluationError::UnboundNatural(i) => NaturalFailure::UnboundNatural(i.index()),
        }
    }
}

/// The value of the first entry for `parameter`.
pub open spec fn first_assigned(assignment: Seq<(ParameterView, u64)>, parameter: ParameterView) -> Option<u64>
    decreases assignment.len(),
{
    if assignment.len() == 0 {
        None
    } else {
        match first_assigned(assignment.drop_last(), parameter) {
            Some(value) => Some(value),
            None => if assignment.last().0 == parameter { Some(assignment.last().1) } else { None },
        }
    }
}

/// The value of the innermost (last) binding of `variable`.
pub open spec fn innermost_binding(bindings: Seq<(VariableView, u64)>, variable: VariableView) -> Option<u64>
    decreases bindings.len(),
{
    if bindings.len() == 0 {
        None
    } else if bindings.last().0 == variable {
        Some(bindings.last().1)
    } else {
        innermost_binding(bindings.drop_last(), variable)
    }
}

/// Whether an intermediate value is representable.
pub open spec fn representable(value: int) -> bool {
    i128::MIN <= value <= i128::MAX
}

/// The models of the entries of an environment.
pub open spec fn assignment_views(assignment: Seq<(NaturalParameter, u64)>) -> Seq<(ParameterView, u64)> {
    assignment.map_values(|entry: (NaturalParameter, u64)| (entry.0.view_parameter(), entry.1))
}

/// The models of lexical range bindings.
pub open spec fn binding_views(bindings: Seq<(Variable, u64)>) -> Seq<(VariableView, u64)> {
    bindings.map_values(|entry: (Variable, u64)| (entry.0.view_variable(), entry.1))
}

/// The integer value of a natural expression: literals, variables bound by
/// enclosing ranges or by the assignment, implicit dimensions, bound
/// sequence positions (de Bruijn index 0 is the last of `bound`),
/// negation, and nonempty sums, products, maxima and minima. Every
/// intermediate value must be representable.
pub open spec fn natural_value(
    e: ExprView,
    assignment: Seq<(ParameterView, u64)>,
    lexical: Seq<(VariableView, u64)>,
    bound: Seq<u64>,
) -> Result<int, NaturalFailure>
    decreases e, 0nat,
{
    match e {
        ExprView::NatLiteral(n) => Ok(n as int),
        ExprView::Variable(v) => match innermost_binding(lexical, v) {
            Some(value) => Ok(value as int),
            None => match first_assigned(assignment, ParameterView::Variable(v)) {
                Some(value) => Ok(value as int),
                None => Err(NaturalFailure::MissingAssignment(ParameterView::Variable(v))),
            },
        },
        ExprView::ImplicitDimension(nonce) => match first_assigned(assignment, ParameterView::Implicit(nonce)) {
            Some(value) => Ok(value as int),
            None => Err(NaturalFailure::MissingAssignment(ParameterView::Implicit(nonce))),
        },
        ExprView::BoundNatural(index) => if index < bound.len() {
            Ok(bound[bound.len() - 1 - index] as int)
        } else {
            Err(NaturalFailure::UnboundNatural(index))
        },
        ExprView::Monop(Monop::Neg, inner) => match natural_value(*inner, assignment, lexical, bound) {
            Ok(value) => if representable(-value) { Ok(-value) } else { Err(NaturalFailure::Overflow) },
            Err(error) => Err(error),
        },
        ExprView::Finop(op, operands) => {
            if !(op == Finop::Plus || op == Finop::Times || op == Finop::Max || op == Finop::Min) {
                Err(NaturalFailure::UnsupportedSyntax(unsupported_message()))
            } else if operands.len() == 0 {
                Err(NaturalFailure::EmptyOperation(operation_name(op)))
            } else {
                fold_values(op, operands, assignment, lexical, bound)
            }
        },
        _ => Err(NaturalFailure::UnsupportedSyntax(unsupported_message())),
    }
}

/// Combines two values under a finite operation.
pub open spec fn combine(op: Finop, left: int, right: int) -> int {
    if op == Finop::Plus {
        left + right
    } else if op == Finop::Times {
        left * right
    } else if op == Finop::Max {
        if left < right { right } else { left }
    } else {
        if left < right { left } else { right }
    }
}

/// Left-to-right fold of a nonempty operand list; the first failure wins.
pub open spec fn fold_values(
    op: Finop,
    operands: Seq<ExprView>,
    assignment: Seq<(ParameterView, u64)>,
    lexical: Seq<(VariableView, u64)>,
    bound: Seq<u64>,
) -> Result<int, NaturalFailure>
    decreases operands, 1nat,
{
    if operands.len() <= 1 {
        if operands.len() == 0 {
            Err(NaturalFailure::EmptyOperation(operation_name(op)))
        } else {
            natural_value(operands[0], assignment, lexical, bound)
        }
    } else {
        match fold_values(op, operands.drop_last(), assignment, lexical, bound) {
            Err(error) => Err(error),
            Ok(left) => match natural_value(operands.last(), assignment, lexical, bound) {
                Err(error) => Err(error),
                Ok(right) => if representable(combine(op, left, right)) {
                    Ok(combine(op, left, right))
                } else {
                    Err(NaturalFailure::Overflow)
                },
            },
        }
    }
}

/// The value of a natural expression, which must fit in a `u64`.
pub open spec fn evaluation(
    e: ExprView,
    assignment: Seq<(ParameterView, u64)>,
    lexical: Seq<(VariableView, u64)>,
    bound: Seq<u64>,
) -> Result<u64, NaturalFailure> {
    match natural_value(e, assignment, lexical, bound) {
        Ok(value) => if 0 <= value <= u64::MAX { Ok(value as u64) } else { Err(NaturalFailure::Overflow) },
        Err(error) => Err(error),
    }
}

pub open spec fn unsupported_message() -> Seq<char> {
    "unsupported syntax in a natural expression"@
}

pub open spec fn operation_name(op: Finop) -> Seq<char> {
    if op == Finop::Plus {
        "addition"@
    } else if op == Finop::Times {
        "multiplication"@
    } else if op == Finop::Max {
        "maximum"@
    } else {
        "minimum"@
    }
}

/// The model of an evaluation outcome.
pub open spec fn outcome_view(result: Result<u64, NaturalEvaluationError>) -> Result<u64, NaturalFailure> {
    match result {
        Ok(value) => Ok(value),
        Err(error) => Err(error.failure()),
    }
}

fn operation_text(op: Finop) -> (text: &'static str)
    requires
        op == Finop::Plus || op == Finop::Times || op == Finop::Max || op == Finop::Min,
    ensures
        text@ == operation_name(op),
{
    match op {
        Finop::Plus => "addition",
        Finop::Times => "multiplication",
        Finop::Max => "maximum",
        _ => "minimum",
    }
}

pub(crate) fn lookup_assignment(assignment: &Vec<(NaturalParameter, u64)>, parameter: &NaturalParameter) -> (value: Option<u64>)
    ensures
        value == first_assigned(assignment_views(assignment@), parameter.view_parameter()),
{
    let ghost entries = assignment_views(assignment@);
    let mut found: Option<u64> = None;
    let mut i: usize = 0;
    while i < assignment.len()
        invariant
            i <= assignment.len(),
            entries == assignment_views(assignment@),
            found == first_assigned(entries.take(i as int), parameter.view_parameter()),
        decreases assignment.len() - i,
    {
        proof {
            assert(entries.take(i + 1).drop_last() =~= entries.take(i as int));
        }
        if found.is_none() && assignment[i].0.same(parameter) {
            found = Some(assignment[i].1);
        }
        i = i + 1;
    }
    proof {
        assert(entries.take(assignment.len() as int) =~= entries);
    }
    found
}

fn lookup_binding(bindings: &[(Variable, u64)], variable: &Variable) -> (value: Option<u64>)
    ensures
        value == innermost_binding(binding_views(bindings@), variable.view_variable()),
{
    let ghost entries = binding_views(bindings@);
    let mut found: Option<u64> = None;
    let mut i: usize = 0;
    while i < bindings.len()
        invariant
            i <= bindings.len(),
            entries == binding_views(bindings@),
            found == innermost_binding(entries.take(i as int), variable.view_variable()),
        decreases bindings.len() - i,
    {
        proof {
            assert(entries.take(i + 1).drop_last() =~= entries.take(i as int));
        }
        if bindings[i].0.same(variable) {
            found = Some(bindings[i].1);
        }
        i = i + 1;
    }
    proof {
        assert(entries.take(bindings.len() as int) =~= entries);
    }
    found
}

fn combine_checked(op: Finop, left: i128, right: i128) -> (result: Option<i128>)
    ensures
        match result {
            Some(value) => representable(combine(op, left as int, right as int)) && value == combine(op, left as int, right as int),
            None => !representable(combine(op, left as int, right as int)),
        },
{
    match op {
        Finop::Plus => left.checked_add(right),
        Finop::Times => left.checked_mul(right),
        Finop::Max => if left < right { Some(right) } else { Some(left) },
        _ => if left < right { Some(left) } else { Some(right) },
    }
}

/// A failure in a prefix of the operands is the failure of the whole fold.
proof fn lemma_fold_prefix(
    op: Finop,
    operands: Seq<ExprView>,
    k: int,
    assignment: Seq<(ParameterView, u64)>,
    lexical: Seq<(VariableView, u64)>,
    bound: Seq<u64>,
)
    requires
        1 <= k <= operands.len(),
    ensures
        fold_values(op, operands.take(k), assignment, lexical, bound) is Err ==>
            fold_values(op, operands, assignment, lexical, bound) == fold_values(op, operands.take(k), assignment, lexical, bound),
    decreases operands.len() - k,
{
    if k < operands.len() {
        lemma_fold_prefix(op, operands, k + 1, assignment, lexical, bound);
        assert(operands.take(k + 1).drop_last() =~= operands.take(k));
    } else {
        assert(operands.take(k) =~= operands);
    }
}

/// Evaluates with explicit lexical range values and bound positions.
pub fn natural_value_exec<Metadata>(
    expression: &Expr<Metadata>,
    assignment: &Vec<(NaturalParameter, u64)>,
    lexical: &[(Variable, u64)],
    bound: &[u64],
) -> (value: Result<i128, NaturalEvaluationError>)
    ensures
        match value {
            Ok(v) => natural_value(expression@, assignment_views(assignment@), binding_views(lexical@), bound@) == Ok::<int, NaturalFailure>(v as int),
            Err(e) => natural_value(expression@, assignment_views(assignment@), binding_views(lexical@), bound@) == Err::<int, NaturalFailure>(e.failure()),
        },
    decreases *expression,
{
    match expression.raw() {
        RawExpr::NatLiteral(n) => Ok(*n as i128),
        RawExpr::Variable(variable) => match lookup_binding(lexical, variable) {
            Some(value) => Ok(value as i128),
            None => {
                let parameter = NaturalParameter::Variable(variable.duplicate());
                match lookup_assignment(assignment, &parameter) {
                    Some(value) => Ok(value as i128),
                    None => Err(NaturalEvaluationError::MissingAssignment(parameter)),
                }
            },
        },
        RawExpr::ImplicitDimension(dimension) => {
            let parameter = NaturalParameter::ImplicitDimension(*dimension);
            match lookup_assignment(assignment, &parameter) {
                Some(value) => Ok(value as i128),
                None => Err(NaturalEvaluationError::MissingAssignment(parameter)),
            }
        },
        RawExpr::BoundNatural(index) => {
            if index.0 < bound.len() {
                Ok(bound[bound.len() - 1 - index.0] as i128)
            } else {
                Err(NaturalEvaluationError::UnboundNatural(*index))
            }
        },
        RawExpr::Monop(Monop::Neg, inner) => {
            let value = natural_value_exec(inner, assignment, lexical, bound)?;
            if value == i128::MIN {
                Err(NaturalEvaluationError::Overflow)
            } else {
                Ok(-value)
            }
        },
        RawExpr::Finop(op, operands) => {
            let op = *op;
            if !(op == Finop::Plus || op == Finop::Times || op == Finop::Max || op == Finop::Min) {
                return Err(NaturalEvaluationError::UnsupportedSyntax("unsupported syntax in a natural expression"));
            }
            let ghost ops = views(operands@);
            proof {
                lemma_views(operands@);
            }
            if operands.len() == 0 {
                return Err(NaturalEvaluationError::EmptyOperation(operation_text(op)));
            }
            proof {
                assert(decreases_to!(*expression => operands@[0]));
                assert(ops.take(1) =~= seq![ops[0]]);
                lemma_fold_prefix(op, ops, 1, assignment_views(assignment@), binding_views(lexical@), bound@);
            }
            let mut total = natural_value_exec(&operands[0], assignment, lexical, bound)?;
            let mut i: usize = 1;
            while i < operands.len()
                invariant
                    1 <= i <= operands.len(),
                    ops == views(operands@),
                    ops.len() == operands.len(),
                    forall|j: int| 0 <= j < operands.len() ==> #[trigger] ops[j] == operands@[j]@,
                    op == Finop::Plus || op == Finop::Times || op == Finop::Max || op == Finop::Min,
                    expression.node().raw == RawExpr::Finop(op, *operands),
                    fold_values(op, ops.take(i as int), assignment_views(assignment@), binding_views(lexical@), bound@) == Ok::<int, NaturalFailure>(total as int),
                decreases operands.len() - i,
            {
                proof {
                    assert(ops.take(i + 1).drop_last() =~= ops.take(i as int));
                    assert(decreases_to!(*expression => operands@[i as int]));
                    lemma_fold_prefix(op, ops, i + 1, assignment_views(assignment@), binding_views(lexical@), bound@);
                }
                let right = natural_value_exec(&operands[i], assignment, lexical, bound)?;
                match combine_checked(op, total, right) {
                    Some(combined) => total = combined,
                    None => return Err(NaturalEvaluationError::Overflow),
                }
                i = i + 1;
            }
            proof {
                assert(ops.take(operands.len() as int) =~= ops);
            }
            Ok(total)
        },
        _ => Err(NaturalEvaluationError::UnsupportedSyntax("unsupported syntax in a natural expression")),
    }
}

impl Environment {
    /// The value of a natural expression under this assignment.
    pub fn evaluate_natural<Metadata>(&self, expression: &Expr<Metadata>) -> (value: Result<u64, NaturalEvaluationError>)
        ensures
            outcome_view(value) == evaluation(expression@, assignment_views(self.natural_assignment@), Seq::empty(), Seq::empty()),
    {
        let lexical: Vec<(Variable, u64)> = Vec::new();
        let bound: Vec<u64> = Vec::new();
        proof {
            assert(binding_views(lexical@) =~= Seq::<(VariableView, u64)>::empty());
        }
        self.evaluate_natural_with_context(expression, lexical.as_slice(), bound.as_slice())
    }

    /// The value of a natural expression under this assignment, inside
    /// ranges whose index variables have the given values and under sequence
    /// binders with the given positions.
    pub fn evaluate_natural_with_context<Metadata>(
        &self,
        expression: &Expr<Metadata>,
        lexical_range_values: &[(Variable, u64)],
        bound_natural_values: &[u64],
    ) -> (value: Result<u64, NaturalEvaluationError>)
        ensures
            outcome_view(value) == evaluation(
                expression@,
                assignment_views(self.natural_assignment@),
                binding_views(lexical_range_values@),
                bound_natural_values@,
            ),
    {
        let value = natural_value_exec(expression, &self.natural_assignment, lexical_range_values, bound_natural_values)?;
        if value < 0 || value > u64::MAX as i128 {
            Err(NaturalEvaluationError::Overflow)
        } else {
            Ok(value as u64)
        }
    }
}

} // verus!
