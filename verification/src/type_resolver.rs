//! Symbolic typing: every value node of an expression gets a type whose
//! dimensions are themselves expressions, inferred bottom-up from a table
//! of operator rules.
use std::rc::Rc;
use vstd::prelude::*;

use crate::context::VisitContext;
use crate::view::{comparison_views, logic_views, type_view, views, ExprView, TypeView, VariableView};
use crate::{
    Binop, Cmp, CmpChain, DeBruijnIndex, Logic, LogicChain, Range, Expr, Finop, ImplicitDimension, Matrix, MetaExpr, Monop, RawExpr, SeqOp,
    Triop, TypeExpr, Variable,
};

verus! {

#[derive(Clone, Debug, PartialEq, Eq)]
pub enum TypeError {
    MissingType(Variable),
    Invalid(&'static str),
    Unsupported(&'static str),
    /// A node to be annotated in place is shared with another expression.
    Shared,
}

/// A typing failure as a value.
pub enum TypeErrorView {
    MissingType(VariableView),
    Invalid(Seq<char>),
    Unsupported(Seq<char>),
    Shared,
}

impl TypeError {
    pub open spec fn view_error(&self) -> TypeErrorView {
        match self {
            TypeError::MissingType(v) => TypeErrorView::MissingType(v.view_variable()),
            TypeError::Invalid(message) => TypeErrorView::Invalid(message@),
            TypeError::Unsupported(message) => TypeErrorView::Unsupported(message@),
            TypeError::Shared => TypeErrorView::Shared,
        }
    }
}

/// What a typing rule sees of one operand.
#[derive(Debug, PartialEq, Eq)]
pub enum TypeRuleOperand {
    /// A value of the given type.
    Value(TypeExpr<()>),
    /// A type written as an expression, such as the target of a cast.
    TypeExpression(TypeExpr<()>),
    /// A hole, which has no value.
    NoValue,
}

/// The model of a rule operand.
pub enum OperandView {
    Value(TypeView),
    TypeExpression(TypeView),
    NoValue,
}

pub open spec fn operand_view(operand: TypeRuleOperand) -> OperandView {
    match operand {
        TypeRuleOperand::Value(t) => OperandView::Value(type_view(t)),
        TypeRuleOperand::TypeExpression(t) => OperandView::TypeExpression(type_view(t)),
        TypeRuleOperand::NoValue => OperandView::NoValue,
    }
}

pub open spec fn operand_views(s: Seq<TypeRuleOperand>) -> Seq<OperandView> {
    s.map_values(|operand: TypeRuleOperand| operand_view(operand))
}

/// The typing rules an operator can be given.
#[derive(Clone, Copy, Debug, PartialEq, Eq, Structural)]
pub enum TypeRule {
    /// The type of the first of one or two value operands.
    FirstValue,
    /// The type of one numeric operand.
    NumericIdentity,
    /// The type of one matrix operand.
    MatrixIdentity,
    /// A matrix type with its dimensions swapped.
    Transpose,
    /// A real scalar, from at least one value operand.
    RealResult,
    /// A Boolean.
    BoolResult,
    /// The target type of a cast, else the type of the cast value.
    Cast,
    /// The element type of a subscripted sequence.
    Subscript,
    /// The scalar type of a quotient.
    Division,
    /// The type of a sum (real when there are no operands).
    Addition,
    /// The type of a product (real when there are no operands).
    Multiplication,
    /// The least scalar type of all operands.
    ScalarFold,
}

/// The message of a rule applied to the wrong number of operands.
pub open spec fn wrong_arity() -> Seq<char> {
    "operator has the wrong number of operands"@
}

pub open spec fn value_of(operand: OperandView) -> Result<TypeView, Seq<char>> {
    match operand {
        OperandView::Value(t) => Ok(t),
        _ => Err("expected a value operand"@),
    }
}

pub open spec fn is_scalar(t: TypeView) -> bool {
    t is Nat || t is Int || t is Real
}

pub open spec fn is_numeric(t: TypeView) -> bool {
    is_scalar(t) || t is Matrix
}

/// The least numeric scalar type holding both scalar types.
pub open spec fn scalar_lub(left: TypeView, right: TypeView) -> Result<TypeView, Seq<char>> {
    if left is Nat && right is Nat {
        Ok(TypeView::Nat)
    } else if (left is Nat || left is Int) && (right is Nat || right is Int) {
        Ok(TypeView::Int)
    } else if is_scalar(left) && is_scalar(right) {
        Ok(TypeView::Real)
    } else {
        Err("operation requires numeric scalar operands"@)
    }
}

/// The type of a sum of two operands.
pub open spec fn add_type(left: TypeView, right: TypeView) -> Result<TypeView, Seq<char>> {
    if left is Matrix && right is Matrix {
        Ok(left)
    } else if left is Matrix || right is Matrix {
        Err("matrix and scalar addition is unsupported"@)
    } else {
        scalar_lub(left, right)
    }
}

/// The type of a product of two operands.
pub open spec fn multiply_type(left: TypeView, right: TypeView) -> Result<TypeView, Seq<char>> {
    match left {
        TypeView::Matrix(rows, _) => match right {
            TypeView::Matrix(_, cols) => Ok(TypeView::Matrix(rows, cols)),
            _ => if is_numeric(right) {
                Ok(left)
            } else {
                Err("operation requires numeric operands"@)
            },
        },
        _ => if right is Matrix {
            if is_numeric(left) {
                Ok(right)
            } else {
                Err("operation requires numeric operands"@)
            }
        } else {
            scalar_lub(left, right)
        },
    }
}

/// A matrix operand of a quotient counts as a real scalar.
pub open spec fn scalarized(t: TypeView) -> TypeView {
    if t is Matrix {
        TypeView::Real
    } else {
        t
    }
}

/// How a finite operator combines the types of two operands.
#[derive(Clone, Copy, Debug, PartialEq, Eq, Structural)]
pub enum Combination {
    Sum,
    Product,
    Bound,
}

pub open spec fn combine(kind: Combination, left: TypeView, right: TypeView) -> Result<TypeView, Seq<char>> {
    match kind {
        Combination::Sum => add_type(left, right),
        Combination::Product => multiply_type(left, right),
        Combination::Bound => scalar_lub(left, right),
    }
}

/// The left fold of `combine` over the value types of the operands.
pub open spec fn fold_types(kind: Combination, operands: Seq<OperandView>) -> Result<TypeView, Seq<char>>
    decreases operands.len(),
{
    if operands.len() == 0 {
        Err("finite operation is empty"@)
    } else if operands.len() == 1 {
        value_of(operands[0])
    } else {
        match fold_types(kind, operands.drop_last()) {
            Err(message) => Err(message),
            Ok(left) => match value_of(operands.last()) {
                Err(message) => Err(message),
                Ok(right) => combine(kind, left, right),
            },
        }
    }
}

/// The type a rule gives to its operands, or the message it fails with.
pub open spec fn apply_rule(rule: TypeRule, operands: Seq<OperandView>) -> Result<TypeView, Seq<char>> {
    match rule {
        TypeRule::FirstValue => if 1 <= operands.len() <= 2 {
            value_of(operands[0])
        } else {
            Err(wrong_arity())
        },
        TypeRule::NumericIdentity => if operands.len() != 1 {
            Err(wrong_arity())
        } else {
            match value_of(operands[0]) {
                Err(message) => Err(message),
                Ok(t) => if is_numeric(t) {
                    Ok(t)
                } else {
                    Err("operation requires numeric operands"@)
                },
            }
        },
        TypeRule::MatrixIdentity => if operands.len() != 1 {
            Err(wrong_arity())
        } else {
            match value_of(operands[0]) {
                Err(message) => Err(message),
                Ok(t) => if t is Matrix {
                    Ok(t)
                } else {
                    Err("operation requires a matrix"@)
                },
            }
        },
        TypeRule::Transpose => if operands.len() != 1 {
            Err(wrong_arity())
        } else {
            match value_of(operands[0]) {
                Err(message) => Err(message),
                Ok(t) => match t {
                    TypeView::Matrix(rows, cols) => Ok(TypeView::Matrix(cols, rows)),
                    _ => Err("transpose requires a matrix"@),
                },
            }
        },
        TypeRule::RealResult => if operands.len() == 0 {
            Err("operator is missing an operand"@)
        } else if exists|i: int| 0 <= i < operands.len() && !(operands[i] is Value) {
            Err("expected a value operand"@)
        } else {
            Ok(TypeView::Real)
        },
        TypeRule::BoolResult => Ok(TypeView::Bool),
        TypeRule::Cast => if operands.len() != 2 {
            Err(wrong_arity())
        } else {
            match value_of(operands[1]) {
                Err(message) => Err(message),
                Ok(value) => match operands[0] {
                    OperandView::TypeExpression(target) => Ok(target),
                    _ => Ok(value),
                },
            }
        },
        TypeRule::Subscript => if operands.len() != 2 {
            Err(wrong_arity())
        } else {
            match value_of(operands[1]) {
                Err(message) => Err(message),
                Ok(_) => match value_of(operands[0]) {
                    Err(message) => Err(message),
                    Ok(sequence) => match sequence {
                        TypeView::Sequence(element, _) => match *element {
                            ExprView::Type(t) => Ok(t),
                            _ => Err("sequence element must be a type expression"@),
                        },
                        _ => Err("subscripted expression is not a sequence"@),
                    },
                },
            }
        },
        TypeRule::Division => if operands.len() != 2 {
            Err(wrong_arity())
        } else {
            match value_of(operands[0]) {
                Err(message) => Err(message),
                Ok(left) => match value_of(operands[1]) {
                    Err(message) => Err(message),
                    Ok(right) => scalar_lub(scalarized(left), scalarized(right)),
                },
            }
        },
        TypeRule::Addition => if operands.len() == 0 {
            Ok(TypeView::Real)
        } else {
            fold_types(Combination::Sum, operands)
        },
        TypeRule::Multiplication => if operands.len() == 0 {
            Ok(TypeView::Real)
        } else {
            fold_types(Combination::Product, operands)
        },
        TypeRule::ScalarFold => fold_types(Combination::Bound, operands),
    }
}

/// Whether an executable rule outcome is the outcome `expected`, a failure
/// being an `Invalid` error with the expected message.
pub open spec fn rule_outcome(result: Result<TypeExpr<()>, TypeError>, expected: Result<TypeView, Seq<char>>) -> bool {
    match result {
        Ok(t) => expected == Ok::<TypeView, Seq<char>>(type_view(t)),
        Err(error) => match error {
            TypeError::Invalid(message) => expected == Err::<TypeView, Seq<char>>(message@),
            _ => false,
        },
    }
}

impl TypeRuleOperand {
    fn value(&self) -> (ty: Result<TypeExpr<()>, TypeError>)
        ensures
            rule_outcome(ty, value_of(operand_view(*self))),
    {
        match self {
            TypeRuleOperand::Value(t) => Ok(t.duplicate()),
            _ => Err(TypeError::Invalid("expected a value operand")),
        }
    }
}

fn is_scalar_type(t: &TypeExpr<()>) -> (scalar: bool)
    ensures
        scalar == is_scalar(type_view(*t)),
{
    match t {
        TypeExpr::Nat | TypeExpr::Int | TypeExpr::Real => true,
        _ => false,
    }
}

fn is_matrix_type(t: &TypeExpr<()>) -> (matrix: bool)
    ensures
        matrix == (type_view(*t) is Matrix),
{
    match t {
        TypeExpr::Matrix(_, _) => true,
        _ => false,
    }
}

fn scalar_lub_exec(left: TypeExpr<()>, right: TypeExpr<()>) -> (ty: Result<TypeExpr<()>, TypeError>)
    ensures
        rule_outcome(ty, scalar_lub(type_view(left), type_view(right))),
{
    let left_integral = match left {
        TypeExpr::Nat | TypeExpr::Int => true,
        _ => false,
    };
    let right_integral = match right {
        TypeExpr::Nat | TypeExpr::Int => true,
        _ => false,
    };
    match (&left, &right) {
        (TypeExpr::Nat, TypeExpr::Nat) => Ok(TypeExpr::Nat),
        _ => if left_integral && right_integral {
            Ok(TypeExpr::Int)
        } else if is_scalar_type(&left) && is_scalar_type(&right) {
            Ok(TypeExpr::Real)
        } else {
            Err(TypeError::Invalid("operation requires numeric scalar operands"))
        },
    }
}

fn add_type_exec(left: TypeExpr<()>, right: TypeExpr<()>) -> (ty: Result<TypeExpr<()>, TypeError>)
    ensures
        rule_outcome(ty, add_type(type_view(left), type_view(right))),
{
    let left_matrix = is_matrix_type(&left);
    let right_matrix = is_matrix_type(&right);
    if left_matrix && right_matrix {
        Ok(left)
    } else if left_matrix || right_matrix {
        Err(TypeError::Invalid("matrix and scalar addition is unsupported"))
    } else {
        scalar_lub_exec(left, right)
    }
}

fn multiply_type_exec(left: TypeExpr<()>, right: TypeExpr<()>) -> (ty: Result<TypeExpr<()>, TypeError>)
    ensures
        rule_outcome(ty, multiply_type(type_view(left), type_view(right))),
{
    match (&left, &right) {
        (TypeExpr::Matrix(rows, _), TypeExpr::Matrix(_, cols)) => Ok(TypeExpr::Matrix(rows.share(), cols.share())),
        (TypeExpr::Matrix(_, _), _) => if is_scalar_type(&right) {
            Ok(left)
        } else {
            Err(TypeError::Invalid("operation requires numeric operands"))
        },
        (_, TypeExpr::Matrix(_, _)) => if is_scalar_type(&left) {
            Ok(right)
        } else {
            Err(TypeError::Invalid("operation requires numeric operands"))
        },
        _ => scalar_lub_exec(left, right),
    }
}

fn scalarized_exec(t: TypeExpr<()>) -> (s: TypeExpr<()>)
    ensures
        type_view(s) == scalarized(type_view(t)),
{
    if is_matrix_type(&t) {
        TypeExpr::Real
    } else {
        t
    }
}

fn combine_exec(kind: Combination, left: TypeExpr<()>, right: TypeExpr<()>) -> (ty: Result<TypeExpr<()>, TypeError>)
    ensures
        rule_outcome(ty, combine(kind, type_view(left), type_view(right))),
{
    match kind {
        Combination::Sum => add_type_exec(left, right),
        Combination::Product => multiply_type_exec(left, right),
        Combination::Bound => scalar_lub_exec(left, right),
    }
}

/// A failure in a prefix of the operands is the failure of the whole fold.
proof fn lemma_fold_failure_persists(kind: Combination, s: Seq<OperandView>, n: int)
    requires
        1 <= n <= s.len(),
        fold_types(kind, s.take(n)) is Err,
    ensures
        fold_types(kind, s) == fold_types(kind, s.take(n)),
    decreases s.len() - n,
{
    if n < s.len() {
        assert(s.take(n + 1).drop_last() =~= s.take(n));
        lemma_fold_failure_persists(kind, s, n + 1);
    } else {
        assert(s.take(n) =~= s);
    }
}

fn fold_operand_types(kind: Combination, operands: &Vec<TypeRuleOperand>) -> (ty: Result<TypeExpr<()>, TypeError>)
    ensures
        rule_outcome(ty, fold_types(kind, operand_views(operands@))),
{
    let ghost all = operand_views(operands@);
    if operands.len() == 0 {
        return Err(TypeError::Invalid("finite operation is empty"));
    }
    proof {
        assert(all.take(1).len() == 1);
        assert(fold_types(kind, all.take(1)) == value_of(all[0]));
    }
    let mut acc = match operands[0].value() {
        Ok(t) => t,
        Err(error) => {
            proof {
                lemma_fold_failure_persists(kind, all, 1);
            }
            return Err(error);
        },
    };
    let mut i: usize = 1;
    while i < operands.len()
        invariant
            1 <= i <= operands.len(),
            all == operand_views(operands@),
            all.len() == operands.len(),
            fold_types(kind, all.take(i as int)) == Ok::<TypeView, Seq<char>>(type_view(acc)),
        decreases operands.len() - i,
    {
        proof {
            assert(all.take(i + 1).drop_last() =~= all.take(i as int));
            assert(all.take(i + 1).last() == all[i as int]);
        }
        let right = match operands[i].value() {
            Ok(t) => t,
            Err(error) => {
                proof {
                    lemma_fold_failure_persists(kind, all, i + 1);
                }
                return Err(error);
            },
        };
        acc = match combine_exec(kind, acc, right) {
            Ok(t) => t,
            Err(error) => {
                proof {
                    lemma_fold_failure_persists(kind, all, i + 1);
                }
                return Err(error);
            },
        };
        i = i + 1;
    }
    proof {
        assert(all.take(operands.len() as int) =~= all);
    }
    Ok(acc)
}

/// Applies a rule to the operands of an operator.
pub fn apply_type_rule(rule: TypeRule, operands: &Vec<TypeRuleOperand>) -> (ty: Result<TypeExpr<()>, TypeError>)
    ensures
        rule_outcome(ty, apply_rule(rule, operand_views(operands@))),
{
    let ghost all = operand_views(operands@);
    let wrong = "operator has the wrong number of operands";
    match rule {
        TypeRule::FirstValue => {
            if operands.len() < 1 || operands.len() > 2 {
                return Err(TypeError::Invalid(wrong));
            }
            operands[0].value()
        },
        TypeRule::NumericIdentity => {
            if operands.len() != 1 {
                return Err(TypeError::Invalid(wrong));
            }
            let t = match operands[0].value() {
                Ok(t) => t,
                Err(error) => {
                    return Err(error);
                },
            };
            if is_scalar_type(&t) || is_matrix_type(&t) {
                Ok(t)
            } else {
                Err(TypeError::Invalid("operation requires numeric operands"))
            }
        },
        TypeRule::MatrixIdentity => {
            if operands.len() != 1 {
                return Err(TypeError::Invalid(wrong));
            }
            let t = match operands[0].value() {
                Ok(t) => t,
                Err(error) => {
                    return Err(error);
                },
            };
            if is_matrix_type(&t) {
                Ok(t)
            } else {
                Err(TypeError::Invalid("operation requires a matrix"))
            }
        },
        TypeRule::Transpose => {
            if operands.len() != 1 {
                return Err(TypeError::Invalid(wrong));
            }
            let t = match operands[0].value() {
                Ok(t) => t,
                Err(error) => {
                    return Err(error);
                },
            };
            match t {
                TypeExpr::Matrix(rows, cols) => Ok(TypeExpr::Matrix(cols, rows)),
                _ => Err(TypeError::Invalid("transpose requires a matrix")),
            }
        },
        TypeRule::RealResult => {
            if operands.len() == 0 {
                return Err(TypeError::Invalid("operator is missing an operand"));
            }
            let mut i: usize = 0;
            while i < operands.len()
                invariant
                    i <= operands.len(),
                    rule == TypeRule::RealResult,
                    all == operand_views(operands@),
                    all.len() == operands.len(),
                    all.len() > 0,
                    forall|j: int| 0 <= j < i ==> all[j] is Value,
                decreases operands.len() - i,
            {
                match &operands[i] {
                    TypeRuleOperand::Value(_) => {},
                    _ => {
                        proof {
                            assert(!(all[i as int] is Value));
                        }
                        return Err(TypeError::Invalid("expected a value operand"));
                    },
                }
                i = i + 1;
            }
            proof {
                assert(apply_rule(rule, all) == Ok::<TypeView, Seq<char>>(TypeView::Real));
            }
            Ok(TypeExpr::Real)
        },
        TypeRule::BoolResult => Ok(TypeExpr::Bool),
        TypeRule::Cast => {
            if operands.len() != 2 {
                return Err(TypeError::Invalid(wrong));
            }
            let value = match operands[1].value() {
                Ok(t) => t,
                Err(error) => {
                    return Err(error);
                },
            };
            match &operands[0] {
                TypeRuleOperand::TypeExpression(target) => Ok(target.duplicate()),
                _ => Ok(value),
            }
        },
        TypeRule::Subscript => {
            if operands.len() != 2 {
                return Err(TypeError::Invalid(wrong));
            }
            let _index = match operands[1].value() {
                Ok(t) => t,
                Err(error) => {
                    return Err(error);
                },
            };
            let sequence = match operands[0].value() {
                Ok(t) => t,
                Err(error) => {
                    return Err(error);
                },
            };
            match sequence {
                TypeExpr::Sequence(element, _) => match element.raw() {
                    RawExpr::Type(t) => {
                        proof {
                            assert(element@ == ExprView::Type(type_view(*t)));
                        }
                        Ok(t.duplicate())
                    },
                    _ => {
                        proof {
                            assert(!(element@ is Type));
                        }
                        Err(TypeError::Invalid("sequence element must be a type expression"))
                    },
                },
                _ => Err(TypeError::Invalid("subscripted expression is not a sequence")),
            }
        },
        TypeRule::Division => {
            if operands.len() != 2 {
                return Err(TypeError::Invalid(wrong));
            }
            let left = match operands[0].value() {
                Ok(t) => t,
                Err(error) => {
                    return Err(error);
                },
            };
            let right = match operands[1].value() {
                Ok(t) => t,
                Err(error) => {
                    return Err(error);
                },
            };
            scalar_lub_exec(scalarized_exec(left), scalarized_exec(right))
        },
        TypeRule::Addition => {
            if operands.len() == 0 {
                return Ok(TypeExpr::Real);
            }
            fold_operand_types(Combination::Sum, operands)
        },
        TypeRule::Multiplication => {
            if operands.len() == 0 {
                return Ok(TypeExpr::Real);
            }
            fold_operand_types(Combination::Product, operands)
        },
        TypeRule::ScalarFold => fold_operand_types(Combination::Bound, operands),
    }
}


/// An operator that a typing rule can be registered for.
#[derive(Clone, Copy, Debug, PartialEq, Eq, Structural)]
pub enum Operator {
    Unary(Monop),
    Binary(Binop),
    Ternary(Triop),
    Finite(Finop),
    Sequence(SeqOp),
}

/// The rule of the last entry for `op` in a rule table.
pub open spec fn rule_in(table: Seq<(Operator, TypeRule)>, op: Operator) -> Option<TypeRule>
    decreases table.len(),
{
    if table.len() == 0 {
        None
    } else if table.last().0 == op {
        Some(table.last().1)
    } else {
        rule_in(table.drop_last(), op)
    }
}

/// The typing rules of the operators; an operator without a rule leaves
/// its applications untyped.
#[derive(Clone, Debug)]
pub struct OperatorTypeRules {
    table: Vec<(Operator, TypeRule)>,
}

/// The rules of the core operators.
pub open spec fn core_rule(op: Operator) -> Option<TypeRule> {
    match op {
        Operator::Unary(unary) => match unary {
            Monop::Neg => Some(TypeRule::NumericIdentity),
            Monop::Transpose => Some(TypeRule::Transpose),
            Monop::Trace | Monop::Det | Monop::Norm1 | Monop::NormInfty | Monop::NormFrob => Some(
                TypeRule::RealResult,
            ),
            Monop::Inverse => Some(TypeRule::MatrixIdentity),
            _ => None,
        },
        Operator::Binary(binary) => match binary {
            Binop::Div => Some(TypeRule::Division),
            Binop::Power => Some(TypeRule::FirstValue),
            Binop::InnerProd => Some(TypeRule::RealResult),
            Binop::Cast => Some(TypeRule::Cast),
            Binop::ElementOf => Some(TypeRule::BoolResult),
            Binop::SingleSubscript => Some(TypeRule::Subscript),
            _ => None,
        },
        Operator::Ternary(_) => Some(TypeRule::RealResult),
        Operator::Finite(finite) => match finite {
            Finop::Plus => Some(TypeRule::Addition),
            Finop::Times => Some(TypeRule::Multiplication),
            Finop::And | Finop::Or => Some(TypeRule::BoolResult),
            Finop::Max | Finop::Min => Some(TypeRule::ScalarFold),
            _ => None,
        },
        Operator::Sequence(sequence) => match sequence {
            SeqOp::Sum | SeqOp::Prod => Some(TypeRule::FirstValue),
            _ => None,
        },
    }
}

impl OperatorTypeRules {
    /// The rule registered for an operator.
    pub closed spec fn rule_for(&self, op: Operator) -> Option<TypeRule> {
        rule_in(self.table@, op)
    }

    /// A table without rules.
    pub fn new() -> (rules: Self)
        ensures
            forall|op: Operator| rules.rule_for(op) is None,
    {
        OperatorTypeRules { table: Vec::new() }
    }

    fn register(&mut self, op: Operator, rule: TypeRule)
        requires
            old(self).rule_for(op) is None,
        ensures
            final(self).rule_for(op) == Some(rule),
            forall|other: Operator| other != op ==> final(self).rule_for(other) == old(self).rule_for(other),
    {
        let ghost before = self.table@;
        self.table.push((op, rule));
        proof {
            assert(self.table@.drop_last() =~= before);
        }
    }

    pub fn register_monop(&mut self, op: Monop, rule: TypeRule)
        requires
            old(self).rule_for(Operator::Unary(op)) is None,
        ensures
            final(self).rule_for(Operator::Unary(op)) == Some(rule),
            forall|other: Operator| other != Operator::Unary(op) ==> final(self).rule_for(other) == old(self).rule_for(other),
    {
        self.register(Operator::Unary(op), rule);
    }

    pub fn register_binop(&mut self, op: Binop, rule: TypeRule)
        requires
            old(self).rule_for(Operator::Binary(op)) is None,
        ensures
            final(self).rule_for(Operator::Binary(op)) == Some(rule),
            forall|other: Operator| other != Operator::Binary(op) ==> final(self).rule_for(other) == old(self).rule_for(other),
    {
        self.register(Operator::Binary(op), rule);
    }

    pub fn register_triop(&mut self, op: Triop, rule: TypeRule)
        requires
            old(self).rule_for(Operator::Ternary(op)) is None,
        ensures
            final(self).rule_for(Operator::Ternary(op)) == Some(rule),
            forall|other: Operator| other != Operator::Ternary(op) ==> final(self).rule_for(other) == old(self).rule_for(other),
    {
        self.register(Operator::Ternary(op), rule);
    }

    pub fn register_finop(&mut self, op: Finop, rule: TypeRule)
        requires
            old(self).rule_for(Operator::Finite(op)) is None,
        ensures
            final(self).rule_for(Operator::Finite(op)) == Some(rule),
            forall|other: Operator| other != Operator::Finite(op) ==> final(self).rule_for(other) == old(self).rule_for(other),
    {
        self.register(Operator::Finite(op), rule);
    }

    pub fn register_seqop(&mut self, op: SeqOp, rule: TypeRule)
        requires
            old(self).rule_for(Operator::Sequence(op)) is None,
        ensures
            final(self).rule_for(Operator::Sequence(op)) == Some(rule),
            forall|other: Operator| other != Operator::Sequence(op) ==> final(self).rule_for(other) == old(self).rule_for(other),
    {
        self.register(Operator::Sequence(op), rule);
    }

    /// The rules of the core operators: arithmetic, transposition, traces,
    /// determinants, norms other than the 2-norm, inverses, casts,
    /// membership, subscripts, Boolean connectives, extrema, sums and
    /// products over ranges.
    #[verifier::rlimit(60)]
    pub fn core_rules() -> (rules: Self)
        ensures
            forall|op: Operator| #[trigger] rules.rule_for(op) == core_rule(op),
    {
        let mut rules = Self::new();
        rules.register_monop(Monop::Neg, TypeRule::NumericIdentity);
        rules.register_monop(Monop::Transpose, TypeRule::Transpose);
        rules.register_monop(Monop::Trace, TypeRule::RealResult);
        rules.register_monop(Monop::Det, TypeRule::RealResult);
        rules.register_monop(Monop::Norm1, TypeRule::RealResult);
        rules.register_monop(Monop::NormInfty, TypeRule::RealResult);
        rules.register_monop(Monop::NormFrob, TypeRule::RealResult);
        rules.register_monop(Monop::Inverse, TypeRule::MatrixIdentity);
        rules.register_binop(Binop::Div, TypeRule::Division);
        rules.register_binop(Binop::Power, TypeRule::FirstValue);
        rules.register_binop(Binop::InnerProd, TypeRule::RealResult);
        rules.register_binop(Binop::Cast, TypeRule::Cast);
        rules.register_binop(Binop::ElementOf, TypeRule::BoolResult);
        rules.register_binop(Binop::SingleSubscript, TypeRule::Subscript);
        rules.register_triop(Triop::DoubleSubscript, TypeRule::RealResult);
        rules.register_finop(Finop::Plus, TypeRule::Addition);
        rules.register_finop(Finop::Times, TypeRule::Multiplication);
        rules.register_finop(Finop::And, TypeRule::BoolResult);
        rules.register_finop(Finop::Or, TypeRule::BoolResult);
        rules.register_finop(Finop::Max, TypeRule::ScalarFold);
        rules.register_finop(Finop::Min, TypeRule::ScalarFold);
        rules.register_seqop(SeqOp::Sum, TypeRule::FirstValue);
        rules.register_seqop(SeqOp::Prod, TypeRule::FirstValue);
        rules
    }

    /// The rule registered for an operator, if any.
    pub fn rule(&self, op: Operator) -> (rule: Option<TypeRule>)
        ensures
            rule == self.rule_for(op),
    {
        let mut i: usize = self.table.len();
        proof {
            assert(self.table@.take(i as int) =~= self.table@);
        }
        while i > 0
            invariant
                i <= self.table.len(),
                rule_in(self.table@, op) == rule_in(self.table@.take(i as int), op),
            decreases i,
        {
            proof {
                assert(self.table@.take(i as int).drop_last() =~= self.table@.take(i - 1));
            }
            let (entry_op, entry_rule) = self.table[i - 1];
            if entry_op == op {
                return Some(entry_rule);
            }
            i = i - 1;
        }
        None
    }

    /// Whether an operator has a rule.
    pub fn supports(&self, op: Operator) -> (supported: bool)
        ensures
            supported == self.rule_for(op) is Some,
    {
        self.rule(op).is_some()
    }
}


/// Metadata that can record the type of its node.
pub trait MaybeTyped: Sized {
    /// The type recorded, if any.
    spec fn recorded_type(&self) -> Option<TypeView>;

    fn get_type(&self) -> (ty: Result<TypeExpr<()>, TypeError>)
        ensures
            match ty {
                Ok(t) => self.recorded_type() == Some(type_view(t)),
                Err(_) => self.recorded_type() is None,
            },
    ;

    /// Records a type; a type already recorded is never changed.
    fn put_type(&mut self, ty: TypeExpr<()>)
        requires
            old(self).recorded_type() is None || old(self).recorded_type() == Some(type_view(ty)),
        ensures
            final(self).recorded_type() == Some(type_view(ty)),
    ;
}

/// Metadata holding the inferred type of its node, once inferred.
#[derive(Clone, Debug, PartialEq, Eq)]
pub struct TypedMetadata(pub Option<TypeExpr<()>>);

impl Default for TypedMetadata {
    fn default() -> (metadata: Self)
        ensures
            metadata.0 is None,
    {
        TypedMetadata(None)
    }
}

impl TypedMetadata {
    /// A copy recording the same type.
    pub fn duplicate(&self) -> (copy: Self)
        ensures
            copy == *self,
    {
        match &self.0 {
            Some(t) => TypedMetadata(Some(t.duplicate())),
            None => TypedMetadata(None),
        }
    }

    /// Metadata recording `ty`.
    pub fn resolved(ty: TypeExpr<()>) -> (metadata: Self)
        ensures
            metadata.recorded_type() == Some(type_view(ty)),
    {
        TypedMetadata(Some(ty))
    }
}

impl MaybeTyped for TypedMetadata {
    open spec fn recorded_type(&self) -> Option<TypeView> {
        match self.0 {
            Some(t) => Some(type_view(t)),
            None => None,
        }
    }

    fn get_type(&self) -> (ty: Result<TypeExpr<()>, TypeError>) {
        match &self.0 {
            Some(t) => Ok(t.duplicate()),
            None => Err(TypeError::Unsupported("expression has no value type")),
        }
    }

    fn put_type(&mut self, ty: TypeExpr<()>) {
        if self.0.is_none() {
            self.0 = Some(ty);
        }
    }
}

/// A source of declared variable types.
pub trait TypeLookup {
    /// The type declared for a variable, if any.
    spec fn declared_type(&self, variable: VariableView) -> Option<TypeView>;

    fn type_of(&self, variable: &Variable) -> (ty: Option<TypeExpr<()>>)
        ensures
            match ty {
                Some(t) => self.declared_type(variable.view_variable()) == Some(type_view(t)),
                None => self.declared_type(variable.view_variable()) is None,
            },
    ;
}

/// Declared types; the first entry for a variable is the one that counts.
#[derive(Clone, Debug, Default)]
pub struct SymbolicTypeEnvironment {
    pub types: Vec<(Variable, TypeExpr<()>)>,
}

/// The type of the first entry for `v`.
pub open spec fn first_declaration(s: Seq<(Variable, TypeExpr<()>)>, v: VariableView) -> Option<TypeView>
    decreases s.len(),
{
    if s.len() == 0 {
        None
    } else if s[0].0.view_variable() == v {
        Some(type_view(s[0].1))
    } else {
        first_declaration(s.subrange(1, s.len() as int), v)
    }
}

impl TypeLookup for SymbolicTypeEnvironment {
    open spec fn declared_type(&self, variable: VariableView) -> Option<TypeView> {
        first_declaration(self.types@, variable)
    }

    fn type_of(&self, variable: &Variable) -> (ty: Option<TypeExpr<()>>) {
        let mut i: usize = 0;
        proof {
            assert(self.types@.subrange(0, self.types@.len() as int) =~= self.types@);
        }
        while i < self.types.len()
            invariant
                i <= self.types.len(),
                first_declaration(self.types@, variable.view_variable()) == first_declaration(
                    self.types@.subrange(i as int, self.types@.len() as int),
                    variable.view_variable(),
                ),
            decreases self.types.len() - i,
        {
            let ghost rest = self.types@.subrange(i as int, self.types@.len() as int);
            proof {
                assert(rest.subrange(1, rest.len() as int) =~= self.types@.subrange(i + 1, self.types@.len() as int));
                assert(rest[0] == self.types@[i as int]);
            }
            let (candidate, ty) = &self.types[i];
            if candidate.same(variable) {
                return Some(ty.duplicate());
            }
            i = i + 1;
        }
        None
    }
}

/// The innermost binding of `v` among enclosing binders.
pub open spec fn lexical_type(s: Seq<(VariableView, TypeView)>, v: VariableView) -> Option<TypeView>
    decreases s.len(),
{
    if s.len() == 0 {
        None
    } else if s.last().0 == v {
        Some(s.last().1)
    } else {
        lexical_type(s.drop_last(), v)
    }
}

pub open spec fn lexical_view(s: Seq<(Variable, TypeExpr<()>)>) -> Seq<(VariableView, TypeView)> {
    s.map_values(|binding: (Variable, TypeExpr<()>)| (binding.0.view_variable(), type_view(binding.1)))
}

/// What typing sees at a node: the declared types, the rules, the binders
/// that enclose the node, and whether the node lies in a dimension.
pub struct Scope {
    pub declared: spec_fn(VariableView) -> Option<TypeView>,
    pub rules: spec_fn(Operator) -> Option<TypeRule>,
    pub lexical: Seq<(VariableView, TypeView)>,
    pub in_dimension: bool,
}

impl Scope {
    /// The scope of the dimensions of a type.
    pub open spec fn dimension(self) -> Scope {
        Scope { declared: self.declared, rules: self.rules, lexical: self.lexical, in_dimension: true }
    }

    /// The scope under a binder of `v` with type `t`.
    pub open spec fn binding(self, v: VariableView, t: TypeView) -> Scope {
        Scope { declared: self.declared, rules: self.rules, lexical: self.lexical.push((v, t)), in_dimension: self.in_dimension }
    }

    /// The type of a variable: its innermost binder, else its declaration,
    /// else, inside a dimension, a natural.
    pub open spec fn variable_type(self, v: VariableView) -> Option<TypeView> {
        match lexical_type(self.lexical, v) {
            Some(t) => Some(t),
            None => match (self.declared)(v) {
                Some(t) => Some(t),
                None => if self.in_dimension {
                    Some(TypeView::Nat)
                } else {
                    None
                },
            },
        }
    }

    /// Whether a new sequence index would shadow a declared variable or an
    /// enclosing binder.
    pub open spec fn collides(self, v: VariableView) -> bool {
        lexical_type(self.lexical, v) is Some || (self.declared)(v) is Some
    }
}

pub open spec fn scope_of<L: TypeLookup>(
    types: L,
    rules: OperatorTypeRules,
    lexical: Seq<(Variable, TypeExpr<()>)>,
    in_dimension: bool,
) -> Scope {
    Scope {
        declared: |v: VariableView| types.declared_type(v),
        rules: |op: Operator| rules.rule_for(op),
        lexical: lexical_view(lexical),
        in_dimension,
    }
}

/// The first of two failures.
pub open spec fn first_failure(a: Option<Seq<char>>, b: Option<Seq<char>>) -> Option<Seq<char>> {
    if a is Some {
        a
    } else {
        b
    }
}

pub open spec fn collision_message() -> Seq<char> {
    "sequence index collides with a global variable or enclosing binder"@
}

/// The type recorded at the root of an expression.
pub open spec fn annotation<M: MaybeTyped>(e: Expr<M>) -> Option<TypeView> {
    e.node().meta.recorded_type()
}

/// Whether the operand `left` of a binary operator is visited: the target
/// of a cast only when it is written as a type.
pub open spec fn visits_left<M>(op: Binop, left: Expr<M>) -> bool {
    op != Binop::Cast || left.node().raw is Type
}

/// The first failure while typing the subtrees of a node, in visiting order.
pub open spec fn children_error<M: MaybeTyped>(raw: RawExpr<M>, scope: Scope) -> Option<Seq<char>>
    decreases raw, 0nat,
{
    match raw {
        RawExpr::StandardBasis { index, .. } => resolution_error(index, scope),
        RawExpr::Type(t) => type_error(t, scope),
        RawExpr::Matrix(m) => seq_error(m.elements@, scope),
        RawExpr::Monop(_, x) => resolution_error(x, scope),
        RawExpr::Binop(op, l, r) => first_failure(
            if visits_left(op, l) {
                resolution_error(l, scope)
            } else {
                None
            },
            resolution_error(r, scope),
        ),
        RawExpr::Triop(_, a, b, c) => first_failure(
            resolution_error(a, scope),
            first_failure(resolution_error(b, scope), resolution_error(c, scope)),
        ),
        RawExpr::Finop(_, xs) => seq_error(xs@, scope),
        RawExpr::CmpChain(chain) => first_failure(resolution_error(chain.start, scope), links_error(chain.assertions@, scope)),
        RawExpr::LogicChain(chain) => first_failure(resolution_error(chain.start, scope), links_error(chain.assertions@, scope)),
        RawExpr::Seqop(_, range, body) => first_failure(
            resolution_error(range.from, scope),
            first_failure(
                resolution_error(range.to, scope),
                if scope.collides(range.index_variable.view_variable()) {
                    Some(collision_message())
                } else {
                    resolution_error(body, scope.binding(range.index_variable.view_variable(), TypeView::Nat))
                },
            ),
        ),
        RawExpr::SetComprehension { variable, domain, predicate } => first_failure(
            type_error(domain, scope),
            resolution_error(predicate, scope.binding(variable.view_variable(), type_view(domain))),
        ),
        _ => None,
    }
}

/// The first failure while typing an expression.
pub open spec fn resolution_error<M: MaybeTyped>(e: Expr<M>, scope: Scope) -> Option<Seq<char>>
    decreases e, 2nat,
{
    match children_error(e.node().raw, scope) {
        Some(message) => Some(message),
        None => match inferred(e, scope) {
            Err(message) => Some(message),
            Ok(_) => None,
        },
    }
}

/// The first failure while typing the dimensions of a type.
pub open spec fn type_error<M: MaybeTyped>(t: TypeExpr<M>, scope: Scope) -> Option<Seq<char>>
    decreases t, 0nat,
{
    match t {
        TypeExpr::Matrix(rows, cols) => first_failure(
            resolution_error(rows, scope.dimension()),
            resolution_error(cols, scope.dimension()),
        ),
        TypeExpr::Sequence(element, length) => first_failure(
            resolution_error(element, scope),
            resolution_error(length, scope.dimension()),
        ),
        TypeExpr::SetOf(inner) => type_error(*inner, scope),
        _ => None,
    }
}

pub open spec fn seq_error<M: MaybeTyped>(s: Seq<Expr<M>>, scope: Scope) -> Option<Seq<char>>
    decreases s, 0nat,
{
    if s.len() == 0 {
        None
    } else {
        first_failure(seq_error(s.drop_last(), scope), resolution_error(s.last(), scope))
    }
}

pub open spec fn links_error<M: MaybeTyped, O>(s: Seq<(O, Expr<M>)>, scope: Scope) -> Option<Seq<char>>
    decreases s, 0nat,
{
    if s.len() == 0 {
        None
    } else {
        first_failure(links_error(s.drop_last(), scope), resolution_error(s.last().1, scope))
    }
}

/// The type an expression ends up with: the inferred one, else the one it
/// already had.
pub open spec fn resolved_type<M: MaybeTyped>(e: Expr<M>, scope: Scope) -> Option<TypeView>
    decreases e, 1nat,
{
    match inferred(e, scope) {
        Ok(Some(t)) => Some(t),
        _ => annotation(e),
    }
}

/// What a rule sees of an operand once it is typed.
pub open spec fn operand<M: MaybeTyped>(x: Expr<M>, scope: Scope) -> Option<OperandView>
    decreases x, 2nat,
{
    match x.node().raw {
        RawExpr::Type(t) => Some(OperandView::TypeExpression(type_view(t))),
        RawExpr::Hole => Some(OperandView::NoValue),
        _ => match resolved_type(x, scope) {
            Some(t) => Some(OperandView::Value(t)),
            None => None,
        },
    }
}

pub open spec fn operand_list<M: MaybeTyped>(s: Seq<Expr<M>>, scope: Scope) -> Seq<Option<OperandView>>
    decreases s, 0nat,
{
    if s.len() == 0 {
        Seq::empty()
    } else {
        operand_list(s.drop_last(), scope).push(operand(s.last(), scope))
    }
}

/// The operands, once all of them are known.
pub open spec fn present(operands: Seq<Option<OperandView>>) -> Seq<OperandView> {
    Seq::new(
        operands.len(),
        |i: int|
            match operands[i] {
                Some(o) => o,
                None => OperandView::NoValue,
            },
    )
}

/// The type of an operator application: unknown when an operand or the rule
/// is unknown, else what the rule gives.
pub open spec fn operator_outcome(rule: Option<TypeRule>, operands: Seq<Option<OperandView>>) -> Result<Option<TypeView>, Seq<char>> {
    if exists|i: int| 0 <= i < operands.len() && operands[i] is None {
        Ok(None)
    } else {
        match rule {
            None => Ok(None),
            Some(r) => match apply_rule(r, present(operands)) {
                Ok(t) => Ok(Some(t)),
                Err(message) => Err(message),
            },
        }
    }
}

/// The height and width a block contributes to a block matrix.
pub open spec fn block_dimensions(t: TypeView) -> Result<(ExprView, ExprView), Seq<char>> {
    match t {
        TypeView::Nat | TypeView::Int | TypeView::Real => Ok((ExprView::NatLiteral(1), ExprView::NatLiteral(1))),
        TypeView::Matrix(rows, cols) => if *rows == ExprView::NatLiteral(0) && *cols == ExprView::NatLiteral(0) {
            Err("empty matrices cannot be used as blocks"@)
        } else {
            Ok((*rows, *cols))
        },
        _ => Err("block matrix cells must be numeric scalars or matrices"@),
    }
}

/// The block dimensions of the cells, unknown as soon as a cell is untyped.
pub open spec fn block_scan<M: MaybeTyped>(s: Seq<Expr<M>>, scope: Scope) -> Result<Option<Seq<(ExprView, ExprView)>>, Seq<char>>
    decreases s, 0nat,
{
    if s.len() == 0 {
        Ok(Some(Seq::empty()))
    } else {
        match block_scan(s.drop_last(), scope) {
            Err(message) => Err(message),
            Ok(None) => Ok(None),
            Ok(Some(dimensions)) => match resolved_type(s.last(), scope) {
                None => Ok(None),
                Some(t) => match block_dimensions(t) {
                    Err(message) => Err(message),
                    Ok(d) => Ok(Some(dimensions.push(d))),
                },
            },
        }
    }
}

/// A sum of dimensions, without a sum node for fewer than two of them.
pub open spec fn sum_dimensions(dimensions: Seq<ExprView>) -> ExprView {
    if dimensions.len() == 0 {
        ExprView::NatLiteral(0)
    } else if dimensions.len() == 1 {
        dimensions[0]
    } else {
        ExprView::Finop(Finop::Plus, dimensions)
    }
}

pub open spec fn row_heights(dimensions: Seq<(ExprView, ExprView)>, rows: usize, cols: usize) -> Seq<ExprView> {
    Seq::new(rows as nat, |r: int| dimensions[r * cols].0)
}

pub open spec fn column_widths(dimensions: Seq<(ExprView, ExprView)>, cols: usize) -> Seq<ExprView> {
    Seq::new(cols as nat, |c: int| dimensions[c].1)
}

/// The type of a block matrix: the sums of the heights of its first column
/// and of the widths of its first row.
pub open spec fn matrix_outcome<M: MaybeTyped>(m: Matrix<Expr<M>>, scope: Scope) -> Result<Option<TypeView>, Seq<char>>
    decreases m, 0nat,
{
    if m.rows * m.cols > usize::MAX {
        Err("matrix dimensions overflow usize"@)
    } else if m.elements.len() != m.rows * m.cols {
        Err("matrix element count does not match its dimensions"@)
    } else if (m.rows == 0) != (m.cols == 0) {
        Err("matrix dimensions must both be zero or both be nonzero"@)
    } else if m.rows == 0 {
        Ok(Some(TypeView::Matrix(Box::new(ExprView::NatLiteral(0)), Box::new(ExprView::NatLiteral(0)))))
    } else {
        match block_scan(m.elements@, scope) {
            Err(message) => Err(message),
            Ok(None) => Ok(None),
            Ok(Some(dimensions)) => Ok(Some(TypeView::Matrix(
                Box::new(sum_dimensions(row_heights(dimensions, m.rows, m.cols))),
                Box::new(sum_dimensions(column_widths(dimensions, m.cols))),
            ))),
        }
    }
}

/// What a cast sees of its target.
pub open spec fn cast_target<M>(target: Expr<M>) -> OperandView {
    match target.node().raw {
        RawExpr::Type(t) => OperandView::TypeExpression(type_view(t)),
        _ => OperandView::NoValue,
    }
}

/// The type inferred for a node from the types of its operands: `Ok(None)`
/// when it has none (yet), an error message when its operands do not fit.
pub open spec fn inferred<M: MaybeTyped>(e: Expr<M>, scope: Scope) -> Result<Option<TypeView>, Seq<char>>
    decreases e, 0nat,
{
    inferred_raw(e.node().raw, scope)
}

/// `inferred` for a node with the given payload.
pub open spec fn inferred_raw<M: MaybeTyped>(raw: RawExpr<M>, scope: Scope) -> Result<Option<TypeView>, Seq<char>>
    decreases raw, 2nat,
{
    match raw {
        RawExpr::Hole | RawExpr::Ellipsis | RawExpr::Type(_) => Ok(None),
        RawExpr::ImplicitDimension(_) | RawExpr::BoundNatural(_) | RawExpr::NatLiteral(_) => Ok(Some(TypeView::Nat)),
        RawExpr::IdentityMatrix { dimension } => Ok(Some(TypeView::Matrix(
            Box::new(ExprView::ImplicitDimension(dimension.nonce())),
            Box::new(ExprView::ImplicitDimension(dimension.nonce())),
        ))),
        RawExpr::StandardBasis { dimension, .. } => Ok(Some(TypeView::Matrix(
            Box::new(ExprView::ImplicitDimension(dimension.nonce())),
            Box::new(ExprView::NatLiteral(1)),
        ))),
        RawExpr::ZeroMatrix { rows, cols } => Ok(Some(TypeView::Matrix(
            Box::new(ExprView::ImplicitDimension(rows.nonce())),
            Box::new(ExprView::ImplicitDimension(cols.nonce())),
        ))),
        RawExpr::Variable(v) => Ok(scope.variable_type(v.view_variable())),
        RawExpr::Matrix(m) => matrix_outcome(m, scope),
        RawExpr::Monop(op, x) => operator_outcome((scope.rules)(Operator::Unary(op)), seq![operand(x, scope)]),
        RawExpr::Binop(op, l, r) => if op == Binop::ElementOf {
            Ok(Some(TypeView::Bool))
        } else if op == Binop::Cast {
            match operand(r, scope) {
                None => Ok(None),
                Some(value) => operator_outcome(
                    (scope.rules)(Operator::Binary(op)),
                    seq![Some(cast_target(l)), Some(value)],
                ),
            }
        } else {
            operator_outcome((scope.rules)(Operator::Binary(op)), seq![operand(l, scope), operand(r, scope)])
        },
        RawExpr::Triop(op, a, b, c) => operator_outcome(
            (scope.rules)(Operator::Ternary(op)),
            seq![operand(a, scope), operand(b, scope), operand(c, scope)],
        ),
        RawExpr::Finop(op, xs) => operator_outcome((scope.rules)(Operator::Finite(op)), operand_list(xs@, scope)),
        RawExpr::CmpChain(_) | RawExpr::LogicChain(_) => Ok(Some(TypeView::Bool)),
        RawExpr::Seqop(op, range, body) => operator_outcome(
            (scope.rules)(Operator::Sequence(op)),
            seq![operand(body, scope.binding(range.index_variable.view_variable(), TypeView::Nat))],
        ),
        RawExpr::SetComprehension { domain, .. } => Ok(Some(TypeView::SetOf(Box::new(type_view(domain))))),
    }
}

/// The conditions under which typing a node goes through without tripping
/// an internal check: a variable outside dimensions has a type, and an
/// inferred type agrees with the one already recorded.
pub open spec fn node_resolvable<M: MaybeTyped>(e: Expr<M>, scope: Scope) -> bool {
    &&& (e.node().raw matches RawExpr::Variable(v) ==> scope.variable_type(v.view_variable()) is Some)
    &&& (inferred(e, scope) matches Ok(Some(t)) ==> (annotation(e) is None || annotation(e) == Some(t)))
}

/// `node_resolvable` at every node that typing reaches before a failure.
pub open spec fn resolvable<M: MaybeTyped>(e: Expr<M>, scope: Scope) -> bool
    decreases e, 3nat,
{
    children_resolvable(e.node().raw, scope) && (children_error(e.node().raw, scope) is None ==> node_resolvable(e, scope))
}

pub open spec fn children_resolvable<M: MaybeTyped>(raw: RawExpr<M>, scope: Scope) -> bool
    decreases raw, 1nat,
{
    match raw {
        RawExpr::StandardBasis { index, .. } => resolvable(index, scope),
        RawExpr::Type(t) => type_resolvable(t, scope),
        RawExpr::Matrix(m) => seq_resolvable(m.elements@, scope),
        RawExpr::Monop(_, x) => resolvable(x, scope),
        RawExpr::Binop(op, l, r) => (visits_left(op, l) ==> resolvable(l, scope)) && ((!visits_left(op, l)
            || resolution_error(l, scope) is None) ==> resolvable(r, scope)),
        RawExpr::Triop(_, a, b, c) => resolvable(a, scope) && (resolution_error(a, scope) is None ==> resolvable(b, scope))
            && (resolution_error(a, scope) is None && resolution_error(b, scope) is None ==> resolvable(c, scope)),
        RawExpr::Finop(_, xs) => seq_resolvable(xs@, scope),
        RawExpr::CmpChain(chain) => resolvable(chain.start, scope) && (resolution_error(chain.start, scope) is None
            ==> links_resolvable(chain.assertions@, scope)),
        RawExpr::LogicChain(chain) => resolvable(chain.start, scope) && (resolution_error(chain.start, scope) is None
            ==> links_resolvable(chain.assertions@, scope)),
        RawExpr::Seqop(_, range, body) => resolvable(range.from, scope) && (resolution_error(range.from, scope) is None
            ==> resolvable(range.to, scope)) && (resolution_error(range.from, scope) is None && resolution_error(
            range.to,
            scope,
        ) is None && !scope.collides(range.index_variable.view_variable()) ==> resolvable(
            body,
            scope.binding(range.index_variable.view_variable(), TypeView::Nat),
        )),
        RawExpr::SetComprehension { variable, domain, predicate } => type_resolvable(domain, scope) && (type_error(
            domain,
            scope,
        ) is None ==> resolvable(predicate, scope.binding(variable.view_variable(), type_view(domain)))),
        _ => true,
    }
}

pub open spec fn type_resolvable<M: MaybeTyped>(t: TypeExpr<M>, scope: Scope) -> bool
    decreases t, 1nat,
{
    match t {
        TypeExpr::Matrix(rows, cols) => resolvable(rows, scope.dimension()) && (resolution_error(rows, scope.dimension()) is None
            ==> resolvable(cols, scope.dimension())),
        TypeExpr::Sequence(element, length) => resolvable(element, scope) && (resolution_error(element, scope) is None
            ==> resolvable(length, scope.dimension())),
        TypeExpr::SetOf(inner) => type_resolvable(*inner, scope),
        _ => true,
    }
}

pub open spec fn seq_resolvable<M: MaybeTyped>(s: Seq<Expr<M>>, scope: Scope) -> bool
    decreases s, 1nat,
{
    s.len() == 0 || (seq_resolvable(s.drop_last(), scope) && (seq_error(s.drop_last(), scope) is None ==> resolvable(
        s.last(),
        scope,
    )))
}

pub open spec fn links_resolvable<M: MaybeTyped, O>(s: Seq<(O, Expr<M>)>, scope: Scope) -> bool
    decreases s, 1nat,
{
    s.len() == 0 || (links_resolvable(s.drop_last(), scope) && (links_error(s.drop_last(), scope) is None
        ==> resolvable(s.last().1, scope)))
}

/// `new` is `source` after typing: the same tree, every visited node carrying
/// the type it resolves to.
pub open spec fn resolved_as<M: MaybeTyped>(new: Expr<M>, source: Expr<M>, scope: Scope) -> bool
    decreases source, 3nat,
{
    new@ == source@ && annotation(new) == resolved_type(source, scope) && children_resolved_as(
        new.node().raw,
        source.node().raw,
        scope,
    )
}

pub open spec fn children_resolved_as<M: MaybeTyped>(new: RawExpr<M>, source: RawExpr<M>, scope: Scope) -> bool
    decreases source, 1nat,
{
    match source {
        RawExpr::StandardBasis { index: o, .. } => match new {
            RawExpr::StandardBasis { index: n, .. } => resolved_as(n, o, scope),
            _ => false,
        },
        RawExpr::Type(ot) => match new {
            RawExpr::Type(nt) => type_resolved_as(nt, ot, scope),
            _ => false,
        },
        RawExpr::Matrix(om) => match new {
            RawExpr::Matrix(nm) => seq_resolved_as(nm.elements@, om.elements@, scope),
            _ => false,
        },
        RawExpr::Monop(_, o) => match new {
            RawExpr::Monop(_, n) => resolved_as(n, o, scope),
            _ => false,
        },
        RawExpr::Binop(op, ol, or) => match new {
            RawExpr::Binop(_, nl, nr) => (if visits_left(op, ol) {
                resolved_as(nl, ol, scope)
            } else {
                nl == ol
            }) && resolved_as(nr, or, scope),
            _ => false,
        },
        RawExpr::Triop(_, oa, ob, oc) => match new {
            RawExpr::Triop(_, na, nb, nc) => resolved_as(na, oa, scope) && resolved_as(nb, ob, scope) && resolved_as(
                nc,
                oc,
                scope,
            ),
            _ => false,
        },
        RawExpr::Finop(_, os) => match new {
            RawExpr::Finop(_, ns) => seq_resolved_as(ns@, os@, scope),
            _ => false,
        },
        RawExpr::CmpChain(oc) => match new {
            RawExpr::CmpChain(nc) => resolved_as(nc.start, oc.start, scope) && links_resolved_as(
                nc.assertions@,
                oc.assertions@,
                scope,
            ),
            _ => false,
        },
        RawExpr::LogicChain(oc) => match new {
            RawExpr::LogicChain(nc) => resolved_as(nc.start, oc.start, scope) && links_resolved_as(
                nc.assertions@,
                oc.assertions@,
                scope,
            ),
            _ => false,
        },
        RawExpr::Seqop(_, orange, obody) => match new {
            RawExpr::Seqop(_, nrange, nbody) => resolved_as(nrange.from, orange.from, scope) && resolved_as(
                nrange.to,
                orange.to,
                scope,
            ) && resolved_as(nbody, obody, scope.binding(orange.index_variable.view_variable(), TypeView::Nat)),
            _ => false,
        },
        RawExpr::SetComprehension { variable, domain: od, predicate: op } => match new {
            RawExpr::SetComprehension { domain: nd, predicate: np, .. } => type_resolved_as(nd, od, scope)
                && resolved_as(np, op, scope.binding(variable.view_variable(), type_view(od))),
            _ => false,
        },
        _ => true,
    }
}

pub open spec fn type_resolved_as<M: MaybeTyped>(new: TypeExpr<M>, source: TypeExpr<M>, scope: Scope) -> bool
    decreases source, 1nat,
{
    match source {
        TypeExpr::Matrix(orows, ocols) => match new {
            TypeExpr::Matrix(nrows, ncols) => resolved_as(nrows, orows, scope.dimension()) && resolved_as(
                ncols,
                ocols,
                scope.dimension(),
            ),
            _ => false,
        },
        TypeExpr::Sequence(oelement, olength) => match new {
            TypeExpr::Sequence(nelement, nlength) => resolved_as(nelement, oelement, scope) && resolved_as(
                nlength,
                olength,
                scope.dimension(),
            ),
            _ => false,
        },
        TypeExpr::SetOf(oinner) => match new {
            TypeExpr::SetOf(ninner) => type_resolved_as(*ninner, *oinner, scope),
            _ => false,
        },
        _ => true,
    }
}

pub open spec fn seq_resolved_as<M: MaybeTyped>(new: Seq<Expr<M>>, source: Seq<Expr<M>>, scope: Scope) -> bool
    decreases source, 1nat,
{
    new.len() == source.len() && (source.len() == 0 || (seq_resolved_as(new.drop_last(), source.drop_last(), scope)
        && resolved_as(new.last(), source.last(), scope)))
}

pub open spec fn links_resolved_as<M: MaybeTyped, O>(new: Seq<(O, Expr<M>)>, source: Seq<(O, Expr<M>)>, scope: Scope) -> bool
    decreases source, 1nat,
{
    new.len() == source.len() && (source.len() == 0 || (links_resolved_as(new.drop_last(), source.drop_last(), scope)
        && new.last().0 == source.last().0 && resolved_as(new.last().1, source.last().1, scope)))
}


/// The model of a node with the given payload.
pub open spec fn raw_view<M>(raw: RawExpr<M>) -> ExprView {
    match raw {
        RawExpr::Hole => ExprView::Hole,
        RawExpr::Ellipsis => ExprView::Ellipsis,
        RawExpr::ImplicitDimension(d) => ExprView::ImplicitDimension(d.nonce()),
        RawExpr::BoundNatural(i) => ExprView::BoundNatural(i.index()),
        RawExpr::IdentityMatrix { dimension } => ExprView::IdentityMatrix(dimension.nonce()),
        RawExpr::StandardBasis { index, dimension } => ExprView::StandardBasis(Box::new(index@), dimension.nonce()),
        RawExpr::ZeroMatrix { rows, cols } => ExprView::ZeroMatrix(rows.nonce(), cols.nonce()),
        RawExpr::Type(ty) => ExprView::Type(type_view(ty)),
        RawExpr::Variable(v) => ExprView::Variable(v.view_variable()),
        RawExpr::NatLiteral(n) => ExprView::NatLiteral(n),
        RawExpr::Matrix(m) => ExprView::Matrix(m.rows, m.cols, views(m.elements@)),
        RawExpr::Monop(op, a) => ExprView::Monop(op, Box::new(a@)),
        RawExpr::Binop(op, a, b) => ExprView::Binop(op, Box::new(a@), Box::new(b@)),
        RawExpr::Triop(op, a, b, c) => ExprView::Triop(op, Box::new(a@), Box::new(b@), Box::new(c@)),
        RawExpr::Finop(op, v) => ExprView::Finop(op, views(v@)),
        RawExpr::CmpChain(chain) => ExprView::CmpChain(Box::new(chain.start@), comparison_views(chain.assertions@)),
        RawExpr::LogicChain(chain) => ExprView::LogicChain(Box::new(chain.start@), logic_views(chain.assertions@)),
        RawExpr::Seqop(op, range, body) => ExprView::Seqop(
            op,
            range.index_variable.view_variable(),
            Box::new(range.from@),
            Box::new(range.to@),
            Box::new(body@),
        ),
        RawExpr::SetComprehension { variable, domain, predicate } => ExprView::SetComprehension(
            variable.view_variable(),
            type_view(domain),
            Box::new(predicate@),
        ),
    }
}

pub proof fn lemma_raw_view<M>(e: Expr<M>)
    ensures
        e@ == raw_view(e.node().raw),
{
}


/// Whether an executable inference outcome is the outcome `expected`.
pub open spec fn inference_matches(
    result: Result<Option<TypeExpr<()>>, TypeError>,
    expected: Result<Option<TypeView>, Seq<char>>,
) -> bool {
    match result {
        Ok(Some(t)) => expected == Ok::<Option<TypeView>, Seq<char>>(Some(type_view(t))),
        Ok(None) => expected == Ok::<Option<TypeView>, Seq<char>>(None),
        Err(error) => match error {
            TypeError::Invalid(message) => expected == Err::<Option<TypeView>, Seq<char>>(message@),
            _ => false,
        },
    }
}

pub open spec fn optional_operand_view(operand: Option<TypeRuleOperand>) -> Option<OperandView> {
    match operand {
        Some(o) => Some(operand_view(o)),
        None => None,
    }
}

/// The innermost enclosing binding of a variable.
fn lexical_lookup(lexical: &Vec<(Variable, TypeExpr<()>)>, variable: &Variable) -> (ty: Option<TypeExpr<()>>)
    ensures
        match ty {
            Some(t) => lexical_type(lexical_view(lexical@), variable.view_variable()) == Some(type_view(t)),
            None => lexical_type(lexical_view(lexical@), variable.view_variable()) is None,
        },
{
    let ghost all = lexical_view(lexical@);
    let mut i: usize = lexical.len();
    proof {
        assert(all.take(i as int) =~= all);
    }
    while i > 0
        invariant
            i <= lexical.len(),
            all == lexical_view(lexical@),
            all.len() == lexical.len(),
            lexical_type(all, variable.view_variable()) == lexical_type(all.take(i as int), variable.view_variable()),
        decreases i,
    {
        proof {
            assert(all.take(i as int).drop_last() =~= all.take(i - 1));
            assert(all.take(i as int).last() == all[i - 1]);
        }
        let (bound, ty) = &lexical[i - 1];
        if bound.same(variable) {
            return Some(ty.duplicate());
        }
        i = i - 1;
    }
    None
}

/// The type of a variable in scope, as `Scope::variable_type` gives it.
fn variable_type<L: TypeLookup>(
    types: &L,
    rules: &OperatorTypeRules,
    lexical: &Vec<(Variable, TypeExpr<()>)>,
    in_dimension: bool,
    variable: &Variable,
) -> (ty: Option<TypeExpr<()>>)
    ensures
        match ty {
            Some(t) => scope_of(*types, *rules, lexical@, in_dimension).variable_type(
                variable.view_variable(),
            ) == Some(type_view(t)),
            None => scope_of(*types, *rules, lexical@, in_dimension).variable_type(
                variable.view_variable(),
            ) is None,
        },
{
    match lexical_lookup(lexical, variable) {
        Some(t) => Some(t),
        None => match types.type_of(variable) {
            Some(t) => Some(t),
            None => if in_dimension {
                Some(TypeExpr::Nat)
            } else {
                None
            },
        },
    }
}


proof fn lemma_seq_resolved_member<M: MaybeTyped>(new: Seq<Expr<M>>, source: Seq<Expr<M>>, scope: Scope, i: int)
    requires
        seq_resolved_as(new, source, scope),
        0 <= i < source.len(),
    ensures
        new.len() == source.len(),
        resolved_as(new[i], source[i], scope),
    decreases source.len(),
{
    if i < source.len() - 1 {
        lemma_seq_resolved_member(new.drop_last(), source.drop_last(), scope, i);
    }
}

proof fn lemma_operand_list<M: MaybeTyped>(s: Seq<Expr<M>>, scope: Scope)
    ensures
        operand_list(s, scope).len() == s.len(),
        forall|i: int| 0 <= i < s.len() ==> #[trigger] operand_list(s, scope)[i] == operand(s[i], scope),
    decreases s.len(),
{
    if s.len() > 0 {
        lemma_operand_list(s.drop_last(), scope);
    }
}

/// The inference of a rule application, when every operand is known.
pub open spec fn rule_inference(rule: Option<TypeRule>, operands: Seq<OperandView>) -> Result<Option<TypeView>, Seq<char>> {
    match rule {
        None => Ok(None),
        Some(r) => match apply_rule(r, operands) {
            Ok(t) => Ok(Some(t)),
            Err(message) => Err(message),
        },
    }
}

fn apply_optional(rule: Option<TypeRule>, operands: &Vec<TypeRuleOperand>) -> (inferred: Result<Option<TypeExpr<()>>, TypeError>)
    ensures
        inference_matches(inferred, rule_inference(rule, operand_views(operands@))),
{
    match rule {
        None => Ok(None),
        Some(r) => match apply_type_rule(r, operands) {
            Ok(t) => Ok(Some(t)),
            Err(error) => Err(error),
        },
    }
}

/// What a rule sees of an operand, read from its recorded type.
fn operand_of<M: MaybeTyped>(x: &Expr<M>, Ghost(source): Ghost<Expr<M>>, Ghost(scope): Ghost<Scope>) -> (o: Option<TypeRuleOperand>)
    requires
        x@ == source@,
        annotation(*x) == resolved_type(source, scope),
    ensures
        optional_operand_view(o) == operand(source, scope),
{
    proof {
        lemma_raw_view(*x);
        lemma_raw_view(source);
    }
    match x.raw() {
        RawExpr::Type(t) => Some(TypeRuleOperand::TypeExpression(t.with_default_metadata())),
        RawExpr::Hole => Some(TypeRuleOperand::NoValue),
        _ => match x.meta().get_type() {
            Ok(t) => Some(TypeRuleOperand::Value(t)),
            Err(_) => None,
        },
    }
}

/// The operands of a list, when all of them are known.
fn operands_of<M: MaybeTyped>(xs: &Vec<Expr<M>>, Ghost(source): Ghost<Seq<Expr<M>>>, Ghost(scope): Ghost<Scope>) -> (operands: Option<Vec<TypeRuleOperand>>)
    requires
        seq_resolved_as(xs@, source, scope),
    ensures
        match operands {
            None => exists|i: int| 0 <= i < source.len() && operand_list(source, scope)[i] is None,
            Some(v) => (forall|i: int| 0 <= i < source.len() ==> operand_list(source, scope)[i] is Some) && operand_views(v@)
                == present(operand_list(source, scope)),
        },
{
    let ghost all = operand_list(source, scope);
    proof {
        lemma_operand_list(source, scope);
    }
    let mut result: Vec<TypeRuleOperand> = Vec::new();
    let mut i: usize = 0;
    while i < xs.len()
        invariant
            i <= xs.len(),
            seq_resolved_as(xs@, source, scope),
            xs.len() == source.len(),
            all == operand_list(source, scope),
            all.len() == source.len(),
            forall|j: int| 0 <= j < source.len() ==> #[trigger] all[j] == operand(source[j], scope),
            result.len() == i,
            forall|j: int| 0 <= j < i ==> (#[trigger] all[j]) is Some,
            forall|j: int| 0 <= j < i ==> #[trigger] operand_view(result@[j]) == present(all)[j],
        decreases xs.len() - i,
    {
        proof {
            lemma_seq_resolved_member(xs@, source, scope, i as int);
        }
        match operand_of(&xs[i], Ghost(source[i as int]), Ghost(scope)) {
            None => {
                proof {
                    assert(all[i as int] is None);
                }
                return None;
            },
            Some(o) => {
                result.push(o);
            },
        }
        i = i + 1;
    }
    proof {
        assert(operand_views(result@) =~= present(all));
    }
    Some(result)
}

pub open spec fn dimension_views(s: Seq<(Expr<()>, Expr<()>)>) -> Seq<(ExprView, ExprView)> {
    s.map_values(|d: (Expr<()>, Expr<()>)| (d.0@, d.1@))
}

fn natural(value: u64) -> (e: Expr<()>)
    ensures
        e@ == ExprView::NatLiteral(value),
{
    Expr::new(RawExpr::NatLiteral(value))
}

fn implicit_dimension(dimension: ImplicitDimension) -> (e: Expr<()>)
    ensures
        e@ == ExprView::ImplicitDimension(dimension.nonce()),
{
    Expr::new(RawExpr::ImplicitDimension(dimension))
}

fn is_zero_dimension(e: &Expr<()>) -> (zero: bool)
    ensures
        zero == (e@ == ExprView::NatLiteral(0)),
{
    match e.raw() {
        RawExpr::NatLiteral(value) => *value == 0,
        _ => false,
    }
}

/// The height and width a block contributes to a block matrix.
pub fn block_dimensions_of(ty: TypeExpr<()>) -> (dimensions: Result<(Expr<()>, Expr<()>), TypeError>)
    ensures
        match dimensions {
            Ok(d) => block_dimensions(type_view(ty)) == Ok::<(ExprView, ExprView), Seq<char>>((d.0@, d.1@)),
            Err(error) => match error {
                TypeError::Invalid(message) => block_dimensions(type_view(ty)) == Err::<(ExprView, ExprView), Seq<char>>(
                    message@,
                ),
                _ => false,
            },
        },
{
    match ty {
        TypeExpr::Nat | TypeExpr::Int | TypeExpr::Real => Ok((natural(1), natural(1))),
        TypeExpr::Matrix(rows, cols) => if is_zero_dimension(&rows) && is_zero_dimension(&cols) {
            Err(TypeError::Invalid("empty matrices cannot be used as blocks"))
        } else {
            Ok((rows, cols))
        },
        _ => Err(TypeError::Invalid("block matrix cells must be numeric scalars or matrices")),
    }
}

fn sum_of_dimensions(dimensions: Vec<Expr<()>>) -> (sum: Expr<()>)
    ensures
        sum@ == sum_dimensions(views(dimensions@)),
{
    proof {
        crate::view::lemma_views(dimensions@);
    }
    if dimensions.len() == 0 {
        natural(0)
    } else if dimensions.len() == 1 {
        dimensions[0].share()
    } else {
        Expr::new(RawExpr::Finop(Finop::Plus, dimensions))
    }
}

proof fn lemma_block_scan_stops<M: MaybeTyped>(s: Seq<Expr<M>>, scope: Scope, n: int)
    requires
        0 <= n <= s.len(),
        !(block_scan(s.take(n), scope) is Ok && block_scan(s.take(n), scope)->Ok_0 is Some),
    ensures
        block_scan(s, scope) == block_scan(s.take(n), scope),
    decreases s.len() - n,
{
    if n < s.len() {
        assert(s.take(n + 1).drop_last() =~= s.take(n));
        lemma_block_scan_stops(s, scope, n + 1);
    } else {
        assert(s.take(n) =~= s);
    }
}

proof fn lemma_block_index(rows: int, cols: int, r: int)
    requires
        0 <= r < rows,
        0 < cols,
    ensures
        0 <= r * cols,
        r * cols + cols <= rows * cols,
{
    assert(0 <= r * cols) by (nonlinear_arith)
        requires
            0 <= r,
            0 < cols,
    ;
    assert(r * cols + cols <= rows * cols) by (nonlinear_arith)
        requires
            r < rows,
            0 < cols,
    ;
}

/// The type of a block matrix from the recorded types of its cells.
fn infer_matrix<M: MaybeTyped>(m: &Matrix<Expr<M>>, Ghost(source): Ghost<Matrix<Expr<M>>>, Ghost(scope): Ghost<Scope>) -> (inferred: Result<Option<TypeExpr<()>>, TypeError>)
    requires
        m.rows == source.rows,
        m.cols == source.cols,
        seq_resolved_as(m.elements@, source.elements@, scope),
    ensures
        inference_matches(inferred, matrix_outcome(source, scope)),
{
    let total = match m.rows.checked_mul(m.cols) {
        Some(total) => total,
        None => {
            return Err(TypeError::Invalid("matrix dimensions overflow usize"));
        },
    };
    if m.elements.len() != total {
        return Err(TypeError::Invalid("matrix element count does not match its dimensions"));
    }
    if (m.rows == 0) != (m.cols == 0) {
        return Err(TypeError::Invalid("matrix dimensions must both be zero or both be nonzero"));
    }
    if m.rows == 0 {
        return Ok(Some(TypeExpr::Matrix(natural(0), natural(0))));
    }
    let ghost cells = source.elements@;
    let mut dimensions: Vec<(Expr<()>, Expr<()>)> = Vec::new();
    let mut i: usize = 0;
    proof {
        assert(cells.take(0) =~= Seq::<Expr<M>>::empty());
        assert(dimension_views(dimensions@) =~= Seq::<(ExprView, ExprView)>::empty());
    }
    while i < m.elements.len()
        invariant
            i <= m.elements.len(),
            m.elements.len() == total,
            total == m.rows * m.cols,
            m.rows == source.rows,
            m.cols == source.cols,
            m.rows > 0,
            m.cols > 0,
            cells == source.elements@,
            cells.len() == m.elements.len(),
            seq_resolved_as(m.elements@, cells, scope),
            block_scan(cells.take(i as int), scope) == Ok::<Option<Seq<(ExprView, ExprView)>>, Seq<char>>(
                Some(dimension_views(dimensions@)),
            ),
            dimensions.len() == i,
        decreases m.elements.len() - i,
    {
        proof {
            lemma_seq_resolved_member(m.elements@, cells, scope, i as int);
            assert(cells.take(i + 1).drop_last() =~= cells.take(i as int));
            assert(cells.take(i + 1).last() == cells[i as int]);
        }
        match m.elements[i].meta().get_type() {
            Err(_) => {
                proof {
                    lemma_block_scan_stops(cells, scope, i + 1);
                }
                return Ok(None);
            },
            Ok(ty) => match block_dimensions_of(ty) {
                Err(error) => {
                    proof {
                        lemma_block_scan_stops(cells, scope, i + 1);
                    }
                    return Err(error);
                },
                Ok(d) => {
                    let ghost before = dimensions@;
                    dimensions.push(d);
                    proof {
                        assert(dimension_views(dimensions@) =~= dimension_views(before).push((d.0@, d.1@)));
                    }
                },
            },
        }
        i = i + 1;
    }
    proof {
        assert(cells.take(m.elements.len() as int) =~= cells);
    }
    let ghost dims = dimension_views(dimensions@);
    let mut heights: Vec<Expr<()>> = Vec::new();
    let mut r: usize = 0;
    while r < m.rows
        invariant
            r <= m.rows,
            0 < m.cols,
            dimensions.len() == m.rows * m.cols,
            dims == dimension_views(dimensions@),
            views(heights@) == row_heights(dims, m.rows, m.cols).take(r as int),
        decreases m.rows - r,
    {
        proof {
            lemma_block_index(m.rows as int, m.cols as int, r as int);
            crate::view::lemma_views(heights@);
        }
        let ghost before = heights@;
        heights.push(dimensions[r * m.cols].0.share());
        proof {
            assert(heights@.drop_last() =~= before);
            assert(row_heights(dims, m.rows, m.cols).take(r + 1) =~= row_heights(dims, m.rows, m.cols).take(r as int).push(
                dims[r * m.cols].0,
            ));
        }
        r = r + 1;
    }
    let mut widths: Vec<Expr<()>> = Vec::new();
    let mut c: usize = 0;
    while c < m.cols
        invariant
            c <= m.cols,
            0 < m.rows,
            dimensions.len() == m.rows * m.cols,
            dims == dimension_views(dimensions@),
            views(widths@) == column_widths(dims, m.cols).take(c as int),
        decreases m.cols - c,
    {
        proof {
            lemma_block_index(m.rows as int, m.cols as int, 0);
        }
        let ghost before = widths@;
        widths.push(dimensions[c].1.share());
        proof {
            assert(widths@.drop_last() =~= before);
            assert(column_widths(dims, m.cols).take(c + 1) =~= column_widths(dims, m.cols).take(c as int).push(dims[c as int].1));
        }
        c = c + 1;
    }
    proof {
        assert(row_heights(dims, m.rows, m.cols).take(m.rows as int) =~= row_heights(dims, m.rows, m.cols));
        assert(column_widths(dims, m.cols).take(m.cols as int) =~= column_widths(dims, m.cols));
    }
    Ok(Some(TypeExpr::Matrix(sum_of_dimensions(heights), sum_of_dimensions(widths))))
}


/// Appends the operand `o`, read from the typed `x`, to `operands`; an
/// unknown operand leaves the application untyped.
fn push_operand<M: MaybeTyped>(
    operands: &mut Vec<TypeRuleOperand>,
    x: &Expr<M>,
    Ghost(source): Ghost<Expr<M>>,
    Ghost(scope): Ghost<Scope>,
) -> (known: bool)
    requires
        x@ == source@,
        annotation(*x) == resolved_type(source, scope),
    ensures
        known == operand(source, scope) is Some,
        known ==> final(operands)@ == old(operands)@.push(final(operands)@.last()) && Some(
            operand_view(final(operands)@.last()),
        ) == operand(source, scope),
{
    match operand_of(x, Ghost(source), Ghost(scope)) {
        None => false,
        Some(o) => {
            operands.push(o);
            true
        },
    }
}

/// The type of a node whose operands are already typed, from the recorded
/// types of its typed operands: the step of typing at one node, once the
/// node can be annotated.
pub fn infer_node<M: MaybeTyped, L: TypeLookup>(
    types: &L,
    rules: &OperatorTypeRules,
    lexical: &Vec<(Variable, TypeExpr<()>)>,
    in_dimension: bool,
    raw: &RawExpr<M>,
) -> (inferred: Result<Option<TypeExpr<()>>, TypeError>)
    requires
        children_resolved_as(*raw, *raw, scope_of(*types, *rules, lexical@, in_dimension)),
    ensures
        inference_matches(inferred, inferred_raw(*raw, scope_of(*types, *rules, lexical@, in_dimension))),
{
    infer_resolved_node(types, rules, lexical, in_dimension, raw, Ghost(*raw))
}

/// The type of a node, from the recorded types of its typed operands, its
/// operands being the resolved ones of `source`.
#[verifier::rlimit(80)]
fn infer_resolved_node<M: MaybeTyped, L: TypeLookup>(
    types: &L,
    rules: &OperatorTypeRules,
    lexical: &Vec<(Variable, TypeExpr<()>)>,
    in_dimension: bool,
    raw: &RawExpr<M>,
    Ghost(source): Ghost<RawExpr<M>>,
) -> (inferred: Result<Option<TypeExpr<()>>, TypeError>)
    requires
        raw_view(*raw) == raw_view(source),
        children_resolved_as(*raw, source, scope_of(*types, *rules, lexical@, in_dimension)),
    ensures
        inference_matches(inferred, inferred_raw(source, scope_of(*types, *rules, lexical@, in_dimension))),
{
    let ghost scope = scope_of(*types, *rules, lexical@, in_dimension);
    match raw {
        RawExpr::Hole | RawExpr::Ellipsis | RawExpr::Type(_) => Ok(None),
        RawExpr::ImplicitDimension(_) | RawExpr::BoundNatural(_) | RawExpr::NatLiteral(_) => Ok(Some(TypeExpr::Nat)),
        RawExpr::IdentityMatrix { dimension } => Ok(
            Some(TypeExpr::Matrix(implicit_dimension(*dimension), implicit_dimension(*dimension))),
        ),
        RawExpr::StandardBasis { dimension, .. } => Ok(Some(TypeExpr::Matrix(implicit_dimension(*dimension), natural(1)))),
        RawExpr::ZeroMatrix { rows, cols } => Ok(
            Some(TypeExpr::Matrix(implicit_dimension(*rows), implicit_dimension(*cols))),
        ),
        RawExpr::Variable(v) => Ok(variable_type(types, rules, lexical, in_dimension, v)),
        RawExpr::Matrix(m) => {
            let ghost om = match source {
                RawExpr::Matrix(o) => o,
                _ => *m,
            };
            infer_matrix(m, Ghost(om), Ghost(scope))
        },
        RawExpr::Monop(op, x) => {
            let ghost ox = match source {
                RawExpr::Monop(_, o) => o,
                _ => *x,
            };
            let ghost expected = seq![operand(ox, scope)];
            let mut operands: Vec<TypeRuleOperand> = Vec::new();
            if !push_operand(&mut operands, x, Ghost(ox), Ghost(scope)) {
                proof {
                    assert(expected[0] is None);
                }
                return Ok(None);
            }
            proof {
                assert(operand_views(operands@) =~= present(expected));
                assert(forall|i: int| 0 <= i < expected.len() ==> expected[i] is Some);
            }
            apply_optional(rules.rule(Operator::Unary(*op)), &operands)
        },
        RawExpr::Binop(op, l, r) => {
            let ghost (ol, or) = match source {
                RawExpr::Binop(_, a, b) => (a, b),
                _ => (*l, *r),
            };
            match op {
                Binop::ElementOf => Ok(Some(TypeExpr::Bool)),
                Binop::Cast => {
                    let target = match l.raw() {
                        RawExpr::Type(t) => TypeRuleOperand::TypeExpression(t.with_default_metadata()),
                        _ => TypeRuleOperand::NoValue,
                    };
                    proof {
                        lemma_raw_view(*l);
                        lemma_raw_view(ol);
                        assert(operand_view(target) == cast_target(ol));
                    }
                    let mut operands: Vec<TypeRuleOperand> = Vec::new();
                    operands.push(target);
                    if !push_operand(&mut operands, r, Ghost(or), Ghost(scope)) {
                        return Ok(None);
                    }
                    let ghost expected = seq![Some(cast_target(ol)), operand(or, scope)];
                    proof {
                        assert(operand_views(operands@) =~= present(expected));
                        assert(forall|i: int| 0 <= i < expected.len() ==> expected[i] is Some);
                    }
                    apply_optional(rules.rule(Operator::Binary(*op)), &operands)
                },
                _ => {
                    let ghost expected = seq![operand(ol, scope), operand(or, scope)];
                    let mut operands: Vec<TypeRuleOperand> = Vec::new();
                    if !push_operand(&mut operands, l, Ghost(ol), Ghost(scope)) {
                        proof {
                            assert(expected[0] is None);
                        }
                        return Ok(None);
                    }
                    if !push_operand(&mut operands, r, Ghost(or), Ghost(scope)) {
                        proof {
                            assert(expected[1] is None);
                        }
                        return Ok(None);
                    }
                    proof {
                        assert(operand_views(operands@) =~= present(expected));
                        assert(forall|i: int| 0 <= i < expected.len() ==> expected[i] is Some);
                    }
                    apply_optional(rules.rule(Operator::Binary(*op)), &operands)
                },
            }
        },
        RawExpr::Triop(op, a, b, c) => {
            let ghost (oa, ob, oc) = match source {
                RawExpr::Triop(_, x, y, z) => (x, y, z),
                _ => (*a, *b, *c),
            };
            let ghost expected = seq![operand(oa, scope), operand(ob, scope), operand(oc, scope)];
            let mut operands: Vec<TypeRuleOperand> = Vec::new();
            if !push_operand(&mut operands, a, Ghost(oa), Ghost(scope)) {
                proof {
                    assert(expected[0] is None);
                }
                return Ok(None);
            }
            if !push_operand(&mut operands, b, Ghost(ob), Ghost(scope)) {
                proof {
                    assert(expected[1] is None);
                }
                return Ok(None);
            }
            if !push_operand(&mut operands, c, Ghost(oc), Ghost(scope)) {
                proof {
                    assert(expected[2] is None);
                }
                return Ok(None);
            }
            proof {
                assert(operand_views(operands@) =~= present(expected));
                assert(forall|i: int| 0 <= i < expected.len() ==> expected[i] is Some);
            }
            apply_optional(rules.rule(Operator::Ternary(*op)), &operands)
        },
        RawExpr::Finop(op, xs) => {
            let ghost os = match source {
                RawExpr::Finop(_, o) => o@,
                _ => xs@,
            };
            let result = match operands_of(xs, Ghost(os), Ghost(scope)) {
                None => Ok(None),
                Some(operands) => apply_optional(rules.rule(Operator::Finite(*op)), &operands),
            };
            proof {
                lemma_operand_list(os, scope);
            }
            result
        },
        RawExpr::CmpChain(_) | RawExpr::LogicChain(_) => Ok(Some(TypeExpr::Bool)),
        RawExpr::Seqop(op, range, body) => {
            let ghost (orange, obody) = match source {
                RawExpr::Seqop(_, r, b) => (r, b),
                _ => (*range, *body),
            };
            let ghost inner = scope.binding(orange.index_variable.view_variable(), TypeView::Nat);
            let ghost expected = seq![operand(obody, inner)];
            let mut operands: Vec<TypeRuleOperand> = Vec::new();
            if !push_operand(&mut operands, body, Ghost(obody), Ghost(inner)) {
                proof {
                    assert(expected[0] is None);
                }
                return Ok(None);
            }
            proof {
                assert(operand_views(operands@) =~= present(expected));
                assert(forall|i: int| 0 <= i < expected.len() ==> expected[i] is Some);
            }
            apply_optional(rules.rule(Operator::Sequence(*op)), &operands)
        },
        RawExpr::SetComprehension { domain, .. } => Ok(Some(TypeExpr::SetOf(Box::new(domain.with_default_metadata())))),
    }
}


/// A typing outcome: success exactly where no failure is expected; a typing
/// error exactly the expected failure; or the report that a node is shared
/// with another expression and cannot be annotated in place.
pub open spec fn outcome_matches(result: Result<(), TypeError>, failure: Option<Seq<char>>) -> bool {
    match result {
        Ok(()) => failure is None,
        Err(error) => error is Shared || (failure matches Some(message) && error.view_error() == TypeErrorView::Invalid(
            message,
        )),
    }
}

proof fn lemma_scope_dimension<L: TypeLookup>(
    types: L,
    rules: OperatorTypeRules,
    lexical: Seq<(Variable, TypeExpr<()>)>,
    in_dimension: bool,
)
    ensures
        scope_of(types, rules, lexical, true) == scope_of(types, rules, lexical, in_dimension).dimension(),
{
    let a = scope_of(types, rules, lexical, true);
    let b = scope_of(types, rules, lexical, in_dimension).dimension();
    assert(a.declared =~= b.declared);
    assert(a.rules =~= b.rules);
}

proof fn lemma_scope_binding<L: TypeLookup>(
    types: L,
    rules: OperatorTypeRules,
    lexical: Seq<(Variable, TypeExpr<()>)>,
    in_dimension: bool,
    binding: (Variable, TypeExpr<()>),
)
    ensures
        scope_of(types, rules, lexical.push(binding), in_dimension) == scope_of(types, rules, lexical, in_dimension).binding(
            binding.0.view_variable(),
            type_view(binding.1),
        ),
{
    let a = scope_of(types, rules, lexical.push(binding), in_dimension);
    let b = scope_of(types, rules, lexical, in_dimension).binding(binding.0.view_variable(), type_view(binding.1));
    assert(a.declared =~= b.declared);
    assert(a.rules =~= b.rules);
    assert(a.lexical =~= b.lexical);
}

proof fn lemma_views_append<M>(a: Seq<Expr<M>>, b: Seq<Expr<M>>)
    ensures
        views(a + b) == views(a) + views(b),
    decreases b.len(),
{
    if b.len() == 0 {
        assert(a + b =~= a);
        assert(views(a) + views(b) =~= views(a));
    } else {
        lemma_views_append(a, b.drop_last());
        assert((a + b).drop_last() =~= a + b.drop_last());
        assert(views(a) + views(b) =~= (views(a) + views(b.drop_last())).push(b.last()@));
    }
}

proof fn lemma_link_views_append<O, M>(a: Seq<(O, Expr<M>)>, b: Seq<(O, Expr<M>)>)
    ensures
        crate::expression_utils::link_views(a + b) == crate::expression_utils::link_views(a)
            + crate::expression_utils::link_views(b),
    decreases b.len(),
{
    if b.len() == 0 {
        assert(a + b =~= a);
        assert(crate::expression_utils::link_views(a) + crate::expression_utils::link_views(b)
            =~= crate::expression_utils::link_views(a));
    } else {
        lemma_link_views_append(a, b.drop_last());
        assert((a + b).drop_last() =~= a + b.drop_last());
        assert(crate::expression_utils::link_views(a) + crate::expression_utils::link_views(b) =~= (
        crate::expression_utils::link_views(a) + crate::expression_utils::link_views(b.drop_last())).push(
            (b.last().0, b.last().1@),
        ));
    }
}

proof fn lemma_seq_member_resolvable<M: MaybeTyped>(s: Seq<Expr<M>>, scope: Scope, k: int)
    requires
        seq_resolvable(s, scope),
        0 <= k < s.len(),
        seq_error(s.take(k), scope) is None,
    ensures
        resolvable(s[k], scope),
    decreases s.len(),
{
    if k == s.len() - 1 {
        assert(s.take(k) =~= s.drop_last());
    } else {
        assert(s.drop_last().take(k) =~= s.take(k));
        lemma_seq_member_resolvable(s.drop_last(), scope, k);
    }
}

proof fn lemma_seq_error_persists<M: MaybeTyped>(s: Seq<Expr<M>>, scope: Scope, n: int)
    requires
        0 <= n <= s.len(),
        seq_error(s.take(n), scope) is Some,
    ensures
        seq_error(s, scope) == seq_error(s.take(n), scope),
    decreases s.len() - n,
{
    if n < s.len() {
        assert(s.take(n + 1).drop_last() =~= s.take(n));
        lemma_seq_error_persists(s, scope, n + 1);
    } else {
        assert(s.take(n) =~= s);
    }
}

proof fn lemma_links_member_resolvable<M: MaybeTyped, O>(s: Seq<(O, Expr<M>)>, scope: Scope, k: int)
    requires
        links_resolvable(s, scope),
        0 <= k < s.len(),
        links_error(s.take(k), scope) is None,
    ensures
        resolvable(s[k].1, scope),
    decreases s.len(),
{
    if k == s.len() - 1 {
        assert(s.take(k) =~= s.drop_last());
    } else {
        assert(s.drop_last().take(k) =~= s.take(k));
        lemma_links_member_resolvable(s.drop_last(), scope, k);
    }
}

proof fn lemma_links_error_persists<M: MaybeTyped, O>(s: Seq<(O, Expr<M>)>, scope: Scope, n: int)
    requires
        0 <= n <= s.len(),
        links_error(s.take(n), scope) is Some,
    ensures
        links_error(s, scope) == links_error(s.take(n), scope),
    decreases s.len() - n,
{
    if n < s.len() {
        assert(s.take(n + 1).drop_last() =~= s.take(n));
        lemma_links_error_persists(s, scope, n + 1);
    } else {
        assert(s.take(n) =~= s);
    }
}

#[verifier::rlimit(100)]
fn resolve_list<M: MaybeTyped, L: TypeLookup>(
    types: &L,
    rules: &OperatorTypeRules,
    lexical: &mut Vec<(Variable, TypeExpr<()>)>,
    in_dimension: bool,
    items: Vec<Expr<M>>,
) -> (out: (Vec<Expr<M>>, Result<(), TypeError>))
    requires
        seq_resolvable(items@, scope_of(*types, *rules, old(lexical)@, in_dimension)),
    ensures
        final(lexical)@ == old(lexical)@,
        views(out.0@) == views(items@),
        outcome_matches(out.1, seq_error(items@, scope_of(*types, *rules, old(lexical)@, in_dimension))),
        out.1 is Ok ==> seq_resolved_as(out.0@, items@, scope_of(*types, *rules, old(lexical)@, in_dimension)),
    decreases items@, 0nat,
{
    let ghost scope = scope_of(*types, *rules, lexical@, in_dimension);
    let ghost entry = lexical@;
    let ghost source = items@;
    let total: usize = items.len();
    let mut rest = items;
    let mut done: Vec<Expr<M>> = Vec::new();
    let mut k: usize = 0;
    proof {
        assert(source.subrange(0, source.len() as int) =~= source);
        assert(source.take(0) =~= Seq::<Expr<M>>::empty());
    }
    while rest.len() > 0
        invariant
            k <= source.len(),
            source.len() == total,
            source == items@,
            rest@ == source.subrange(k as int, source.len() as int),
            done.len() == k,
            views(done@) == views(source.take(k as int)),
            seq_error(source.take(k as int), scope) is None,
            seq_resolved_as(done@, source.take(k as int), scope),
            seq_resolvable(source, scope),
            lexical@ == entry,
            entry == old(lexical)@,
            scope == scope_of(*types, *rules, entry, in_dimension),
        decreases rest.len(),
    {
        proof {
            lemma_seq_member_resolvable(source, scope, k as int);
            assert(source.take(k + 1).drop_last() =~= source.take(k as int));
            assert(source.take(k + 1).last() == source[k as int]);
            assert(rest@[0] == source[k as int]);
            assert(decreases_to!(items@ => items@[k as int]));
        }
        let item = rest.remove(0);
        let ghost done_before = done@;
        let (resolved, outcome) = resolve_owned(types, rules, lexical, in_dimension, item);
        done.push(resolved);
        proof {
            assert(done@.drop_last() =~= done_before);
            assert(views(done@) =~= views(source.take(k + 1)));
        }
        if outcome.is_err() {
            proof {
                if resolution_error(source[k as int], scope) is Some {
                    lemma_seq_error_persists(source, scope, k + 1);
                }
                assert(rest@ =~= source.subrange(k + 1, source.len() as int));
                assert(source.take(k + 1) + source.subrange(k + 1, source.len() as int) =~= source);
                lemma_views_append(source.take(k + 1), source.subrange(k + 1, source.len() as int));
                lemma_views_append(done@, rest@);
            }
            done.append(&mut rest);
            return (done, outcome);
        }
        proof {
            assert(seq_resolved_as(done@, source.take(k + 1), scope));
        }
        k = k + 1;
    }
    proof {
        assert(source.take(k as int) =~= source);
    }
    (done, Ok(()))
}

#[verifier::rlimit(100)]
fn resolve_comparisons<M: MaybeTyped, L: TypeLookup>(
    types: &L,
    rules: &OperatorTypeRules,
    lexical: &mut Vec<(Variable, TypeExpr<()>)>,
    in_dimension: bool,
    items: Vec<(Cmp, Expr<M>)>,
) -> (out: (Vec<(Cmp, Expr<M>)>, Result<(), TypeError>))
    requires
        links_resolvable(items@, scope_of(*types, *rules, old(lexical)@, in_dimension)),
    ensures
        final(lexical)@ == old(lexical)@,
        crate::expression_utils::link_views(out.0@) == crate::expression_utils::link_views(items@),
        outcome_matches(out.1, links_error(items@, scope_of(*types, *rules, old(lexical)@, in_dimension))),
        out.1 is Ok ==> links_resolved_as(out.0@, items@, scope_of(*types, *rules, old(lexical)@, in_dimension)),
    decreases items@, 0nat,
{
    let ghost scope = scope_of(*types, *rules, lexical@, in_dimension);
    let ghost entry = lexical@;
    let ghost source = items@;
    let total: usize = items.len();
    let mut rest = items;
    let mut done: Vec<(Cmp, Expr<M>)> = Vec::new();
    let mut k: usize = 0;
    proof {
        assert(source.subrange(0, source.len() as int) =~= source);
        assert(source.take(0) =~= Seq::<(Cmp, Expr<M>)>::empty());
    }
    while rest.len() > 0
        invariant
            k <= source.len(),
            source.len() == total,
            source == items@,
            rest@ == source.subrange(k as int, source.len() as int),
            done.len() == k,
            crate::expression_utils::link_views(done@) == crate::expression_utils::link_views(source.take(k as int)),
            links_error(source.take(k as int), scope) is None,
            links_resolved_as(done@, source.take(k as int), scope),
            links_resolvable(source, scope),
            lexical@ == entry,
            entry == old(lexical)@,
            scope == scope_of(*types, *rules, entry, in_dimension),
        decreases rest.len(),
    {
        proof {
            lemma_links_member_resolvable(source, scope, k as int);
            assert(source.take(k + 1).drop_last() =~= source.take(k as int));
            assert(source.take(k + 1).last() == source[k as int]);
            assert(rest@[0] == source[k as int]);
            assert(decreases_to!(items@ => items@[k as int]));
            assert(decreases_to!(items@ => items@[k as int].1));
        }
        let (op, item) = rest.remove(0);
        let ghost done_before = done@;
        let (resolved, outcome) = resolve_owned(types, rules, lexical, in_dimension, item);
        done.push((op, resolved));
        proof {
            assert(done@.drop_last() =~= done_before);
            assert(crate::expression_utils::link_views(done@) =~= crate::expression_utils::link_views(source.take(k + 1)));
        }
        if outcome.is_err() {
            proof {
                if resolution_error(source[k as int].1, scope) is Some {
                    lemma_links_error_persists(source, scope, k + 1);
                }
                assert(rest@ =~= source.subrange(k + 1, source.len() as int));
                assert(source.take(k + 1) + source.subrange(k + 1, source.len() as int) =~= source);
                lemma_link_views_append(source.take(k + 1), source.subrange(k + 1, source.len() as int));
                lemma_link_views_append(done@, rest@);
            }
            done.append(&mut rest);
            return (done, outcome);
        }
        proof {
            assert(links_resolved_as(done@, source.take(k + 1), scope));
        }
        k = k + 1;
    }
    proof {
        assert(source.take(k as int) =~= source);
    }
    (done, Ok(()))
}

#[verifier::rlimit(100)]
fn resolve_logic<M: MaybeTyped, L: TypeLookup>(
    types: &L,
    rules: &OperatorTypeRules,
    lexical: &mut Vec<(Variable, TypeExpr<()>)>,
    in_dimension: bool,
    items: Vec<(Logic, Expr<M>)>,
) -> (out: (Vec<(Logic, Expr<M>)>, Result<(), TypeError>))
    requires
        links_resolvable(items@, scope_of(*types, *rules, old(lexical)@, in_dimension)),
    ensures
        final(lexical)@ == old(lexical)@,
        crate::expression_utils::link_views(out.0@) == crate::expression_utils::link_views(items@),
        outcome_matches(out.1, links_error(items@, scope_of(*types, *rules, old(lexical)@, in_dimension))),
        out.1 is Ok ==> links_resolved_as(out.0@, items@, scope_of(*types, *rules, old(lexical)@, in_dimension)),
    decreases items@, 0nat,
{
    let ghost scope = scope_of(*types, *rules, lexical@, in_dimension);
    let ghost entry = lexical@;
    let ghost source = items@;
    let total: usize = items.len();
    let mut rest = items;
    let mut done: Vec<(Logic, Expr<M>)> = Vec::new();
    let mut k: usize = 0;
    proof {
        assert(source.subrange(0, source.len() as int) =~= source);
        assert(source.take(0) =~= Seq::<(Logic, Expr<M>)>::empty());
    }
    while rest.len() > 0
        invariant
            k <= source.len(),
            source.len() == total,
            source == items@,
            rest@ == source.subrange(k as int, source.len() as int),
            done.len() == k,
            crate::expression_utils::link_views(done@) == crate::expression_utils::link_views(source.take(k as int)),
            links_error(source.take(k as int), scope) is None,
            links_resolved_as(done@, source.take(k as int), scope),
            links_resolvable(source, scope),
            lexical@ == entry,
            entry == old(lexical)@,
            scope == scope_of(*types, *rules, entry, in_dimension),
        decreases rest.len(),
    {
        proof {
            lemma_links_member_resolvable(source, scope, k as int);
            assert(source.take(k + 1).drop_last() =~= source.take(k as int));
            assert(source.take(k + 1).last() == source[k as int]);
            assert(rest@[0] == source[k as int]);
            assert(decreases_to!(items@ => items@[k as int]));
            assert(decreases_to!(items@ => items@[k as int].1));
        }
        let (op, item) = rest.remove(0);
        let ghost done_before = done@;
        let (resolved, outcome) = resolve_owned(types, rules, lexical, in_dimension, item);
        done.push((op, resolved));
        proof {
            assert(done@.drop_last() =~= done_before);
            assert(crate::expression_utils::link_views(done@) =~= crate::expression_utils::link_views(source.take(k + 1)));
        }
        if outcome.is_err() {
            proof {
                if resolution_error(source[k as int].1, scope) is Some {
                    lemma_links_error_persists(source, scope, k + 1);
                }
                assert(rest@ =~= source.subrange(k + 1, source.len() as int));
                assert(source.take(k + 1) + source.subrange(k + 1, source.len() as int) =~= source);
                lemma_link_views_append(source.take(k + 1), source.subrange(k + 1, source.len() as int));
                lemma_link_views_append(done@, rest@);
            }
            done.append(&mut rest);
            return (done, outcome);
        }
        proof {
            assert(links_resolved_as(done@, source.take(k + 1), scope));
        }
        k = k + 1;
    }
    proof {
        assert(source.take(k as int) =~= source);
    }
    (done, Ok(()))
}


/// Types an expression that this call owns, annotating its nodes in place.
fn resolve_owned<M: MaybeTyped, L: TypeLookup>(
    types: &L,
    rules: &OperatorTypeRules,
    lexical: &mut Vec<(Variable, TypeExpr<()>)>,
    in_dimension: bool,
    e: Expr<M>,
) -> (out: (Expr<M>, Result<(), TypeError>))
    requires
        resolvable(e, scope_of(*types, *rules, old(lexical)@, in_dimension)),
    ensures
        final(lexical)@ == old(lexical)@,
        out.0@ == e@,
        outcome_matches(out.1, resolution_error(e, scope_of(*types, *rules, old(lexical)@, in_dimension))),
        out.1 is Ok ==> resolved_as(out.0, e, scope_of(*types, *rules, old(lexical)@, in_dimension)),
    decreases e, 1nat,
{
    let ghost scope = scope_of(*types, *rules, lexical@, in_dimension);
    let ghost source = e;
    proof {
        lemma_raw_view(e);
    }
    match Rc::try_unwrap(e.0) {
        Err(shared) => (Expr(shared), Err(TypeError::Shared)),
        Ok(node) => {
            let MetaExpr { meta, raw } = node;
            let mut meta = meta;
            let ghost source_raw = raw;
            let (raw, outcome) = resolve_children(types, rules, lexical, in_dimension, raw);
            match outcome {
                Err(error) => {
                    let rebuilt = Expr(Rc::new(MetaExpr { meta, raw }));
                    proof {
                        lemma_raw_view(rebuilt);
                    }
                    (rebuilt, Err(error))
                },
                Ok(()) => match infer_resolved_node(types, rules, lexical, in_dimension, &raw, Ghost(source_raw)) {
                    Err(error) => {
                        let rebuilt = Expr(Rc::new(MetaExpr { meta, raw }));
                        proof {
                            lemma_raw_view(rebuilt);
                        }
                        (rebuilt, Err(error))
                    },
                    Ok(inferred) => {
                        match inferred {
                            Some(t) => {
                                meta.put_type(t);
                            },
                            None => {},
                        }
                        let rebuilt = Expr(Rc::new(MetaExpr { meta, raw }));
                        proof {
                            lemma_raw_view(rebuilt);
                        }
                        (rebuilt, Ok(()))
                    },
                },
            }
        },
    }
}

/// Types the dimension expressions of a type.
fn resolve_type<M: MaybeTyped, L: TypeLookup>(
    types: &L,
    rules: &OperatorTypeRules,
    lexical: &mut Vec<(Variable, TypeExpr<()>)>,
    in_dimension: bool,
    ty: TypeExpr<M>,
) -> (out: (TypeExpr<M>, Result<(), TypeError>))
    requires
        type_resolvable(ty, scope_of(*types, *rules, old(lexical)@, in_dimension)),
    ensures
        final(lexical)@ == old(lexical)@,
        type_view(out.0) == type_view(ty),
        outcome_matches(out.1, type_error(ty, scope_of(*types, *rules, old(lexical)@, in_dimension))),
        out.1 is Ok ==> type_resolved_as(out.0, ty, scope_of(*types, *rules, old(lexical)@, in_dimension)),
    decreases ty, 1nat,
{
    proof {
        lemma_scope_dimension(*types, *rules, lexical@, in_dimension);
    }
    match ty {
        TypeExpr::Matrix(rows, cols) => {
            let (rows, outcome) = resolve_owned(types, rules, lexical, true, rows);
            if outcome.is_err() {
                return (TypeExpr::Matrix(rows, cols), outcome);
            }
            let (cols, outcome) = resolve_owned(types, rules, lexical, true, cols);
            (TypeExpr::Matrix(rows, cols), outcome)
        },
        TypeExpr::Sequence(element, length) => {
            let (element, outcome) = resolve_owned(types, rules, lexical, in_dimension, element);
            if outcome.is_err() {
                return (TypeExpr::Sequence(element, length), outcome);
            }
            let (length, outcome) = resolve_owned(types, rules, lexical, true, length);
            (TypeExpr::Sequence(element, length), outcome)
        },
        TypeExpr::SetOf(inner) => {
            let inner: TypeExpr<M> = *inner;
            let (inner, outcome) = resolve_type(types, rules, lexical, in_dimension, inner);
            (TypeExpr::SetOf(Box::new(inner)), outcome)
        },
        TypeExpr::Bool => (TypeExpr::Bool, Ok(())),
        TypeExpr::Nat => (TypeExpr::Nat, Ok(())),
        TypeExpr::Int => (TypeExpr::Int, Ok(())),
        TypeExpr::Real => (TypeExpr::Real, Ok(())),
    }
}

/// Types the subtrees of a node in visiting order, stopping at the first
/// failure.
#[verifier::rlimit(100)]
fn resolve_children<M: MaybeTyped, L: TypeLookup>(
    types: &L,
    rules: &OperatorTypeRules,
    lexical: &mut Vec<(Variable, TypeExpr<()>)>,
    in_dimension: bool,
    raw: RawExpr<M>,
) -> (out: (RawExpr<M>, Result<(), TypeError>))
    requires
        children_resolvable(raw, scope_of(*types, *rules, old(lexical)@, in_dimension)),
    ensures
        final(lexical)@ == old(lexical)@,
        raw_view(out.0) == raw_view(raw),
        outcome_matches(out.1, children_error(raw, scope_of(*types, *rules, old(lexical)@, in_dimension))),
        out.1 is Ok ==> children_resolved_as(out.0, raw, scope_of(*types, *rules, old(lexical)@, in_dimension)),
    decreases raw, 0nat,
{
    let ghost scope = scope_of(*types, *rules, lexical@, in_dimension);
    let ghost entry = lexical@;
    match raw {
        RawExpr::StandardBasis { index, dimension } => {
            let (index, outcome) = resolve_owned(types, rules, lexical, in_dimension, index);
            (RawExpr::StandardBasis { index, dimension }, outcome)
        },
        RawExpr::Type(ty) => {
            let (ty, outcome) = resolve_type(types, rules, lexical, in_dimension, ty);
            (RawExpr::Type(ty), outcome)
        },
        RawExpr::Matrix(m) => {
            let Matrix { rows, cols, elements } = m;
            let (elements, outcome) = resolve_list(types, rules, lexical, in_dimension, elements);
            (RawExpr::Matrix(Matrix { rows, cols, elements }), outcome)
        },
        RawExpr::Monop(op, x) => {
            let (x, outcome) = resolve_owned(types, rules, lexical, in_dimension, x);
            (RawExpr::Monop(op, x), outcome)
        },
        RawExpr::Binop(op, l, r) => {
            let visit_left = match op {
                Binop::Cast => match l.raw() {
                    RawExpr::Type(_) => true,
                    _ => false,
                },
                _ => true,
            };
            let (l, outcome) = if visit_left {
                resolve_owned(types, rules, lexical, in_dimension, l)
            } else {
                (l, Ok(()))
            };
            if outcome.is_err() {
                return (RawExpr::Binop(op, l, r), outcome);
            }
            let (r, outcome) = resolve_owned(types, rules, lexical, in_dimension, r);
            (RawExpr::Binop(op, l, r), outcome)
        },
        RawExpr::Triop(op, a, b, c) => {
            let (a, outcome) = resolve_owned(types, rules, lexical, in_dimension, a);
            if outcome.is_err() {
                return (RawExpr::Triop(op, a, b, c), outcome);
            }
            let (b, outcome) = resolve_owned(types, rules, lexical, in_dimension, b);
            if outcome.is_err() {
                return (RawExpr::Triop(op, a, b, c), outcome);
            }
            let (c, outcome) = resolve_owned(types, rules, lexical, in_dimension, c);
            (RawExpr::Triop(op, a, b, c), outcome)
        },
        RawExpr::Finop(op, xs) => {
            let (xs, outcome) = resolve_list(types, rules, lexical, in_dimension, xs);
            (RawExpr::Finop(op, xs), outcome)
        },
        RawExpr::CmpChain(chain) => {
            let CmpChain { start, assertions } = chain;
            proof {
                crate::expression_utils::lemma_comparison_links(assertions@);
            }
            let (start, outcome) = resolve_owned(types, rules, lexical, in_dimension, start);
            if outcome.is_err() {
                return (RawExpr::CmpChain(CmpChain { start, assertions }), outcome);
            }
            let (assertions, outcome) = resolve_comparisons(types, rules, lexical, in_dimension, assertions);
            proof {
                crate::expression_utils::lemma_comparison_links(assertions@);
            }
            (RawExpr::CmpChain(CmpChain { start, assertions }), outcome)
        },
        RawExpr::LogicChain(chain) => {
            let LogicChain { start, assertions } = chain;
            proof {
                crate::expression_utils::lemma_logic_links(assertions@);
            }
            let (start, outcome) = resolve_owned(types, rules, lexical, in_dimension, start);
            if outcome.is_err() {
                return (RawExpr::LogicChain(LogicChain { start, assertions }), outcome);
            }
            let (assertions, outcome) = resolve_logic(types, rules, lexical, in_dimension, assertions);
            proof {
                crate::expression_utils::lemma_logic_links(assertions@);
            }
            (RawExpr::LogicChain(LogicChain { start, assertions }), outcome)
        },
        RawExpr::Seqop(op, range, body) => {
            let Range { index_variable, from, to } = range;
            let (from, outcome) = resolve_owned(types, rules, lexical, in_dimension, from);
            if outcome.is_err() {
                return (RawExpr::Seqop(op, Range { index_variable, from, to }, body), outcome);
            }
            let (to, outcome) = resolve_owned(types, rules, lexical, in_dimension, to);
            if outcome.is_err() {
                return (RawExpr::Seqop(op, Range { index_variable, from, to }, body), outcome);
            }
            let collides = lexical_lookup(lexical, &index_variable).is_some() || types.type_of(&index_variable).is_some();
            if collides {
                return (
                    RawExpr::Seqop(op, Range { index_variable, from, to }, body),
                    Err(TypeError::Invalid("sequence index collides with a global variable or enclosing binder")),
                );
            }
            let binding = (index_variable.duplicate(), TypeExpr::Nat);
            proof {
                lemma_scope_binding(*types, *rules, entry, in_dimension, binding);
            }
            lexical.push(binding);
            let (body, outcome) = resolve_owned(types, rules, lexical, in_dimension, body);
            lexical.pop();
            proof {
                assert(lexical@ =~= entry);
            }
            (RawExpr::Seqop(op, Range { index_variable, from, to }, body), outcome)
        },
        RawExpr::SetComprehension { variable, domain, predicate } => {
            let (domain, outcome) = resolve_type(types, rules, lexical, in_dimension, domain);
            if outcome.is_err() {
                return (RawExpr::SetComprehension { variable, domain, predicate }, outcome);
            }
            let binding = (variable.duplicate(), domain.with_default_metadata());
            proof {
                lemma_scope_binding(*types, *rules, entry, in_dimension, binding);
            }
            lexical.push(binding);
            let (predicate, outcome) = resolve_owned(types, rules, lexical, in_dimension, predicate);
            lexical.pop();
            proof {
                assert(lexical@ =~= entry);
            }
            (RawExpr::SetComprehension { variable, domain, predicate }, outcome)
        },
        other => (other, Ok(())),
    }
}


/// Infers and records the types of an expression's value nodes, bottom-up,
/// against declared variable types and operator rules.
pub struct TypeResolver<'a, Lookup> {
    types: &'a Lookup,
    rules: &'a OperatorTypeRules,
}

impl<'a, Lookup: TypeLookup> TypeResolver<'a, Lookup> {
    /// What typing sees at the root: the declarations and the rules, no
    /// enclosing binders, outside any dimension.
    pub closed spec fn scope(&self) -> Scope {
        scope_of(*self.types, *self.rules, Seq::empty(), false)
    }

    pub fn new(types: &'a Lookup, rules: &'a OperatorTypeRules) -> (resolver: Self)
        ensures
            resolver.scope() == scope_of(*types, *rules, Seq::empty(), false),
    {
        TypeResolver { types, rules }
    }

    /// Records the type of every value node that typing reaches; the tree
    /// itself is unchanged. On success every node carries the type that
    /// `resolved_as` describes; a failure is the first one met in visiting
    /// order, or the report that a node is shared with another expression
    /// and cannot be annotated in place.
    pub fn resolve<Metadata: MaybeTyped>(self, expression: &mut Expr<Metadata>, _context: VisitContext) -> (result: Result<(), TypeError>)
        requires
            resolvable(*old(expression), self.scope()),
        ensures
            final(expression)@ == old(expression)@,
            outcome_matches(result, resolution_error(*old(expression), self.scope())),
            result is Ok ==> resolved_as(*final(expression), *old(expression), self.scope()),
    {
        let ghost scope = self.scope();
        let types = self.types;
        let rules = self.rules;
        let mut lexical: Vec<(Variable, TypeExpr<()>)> = Vec::new();
        proof {
            assert(lexical@ =~= Seq::<(Variable, TypeExpr<()>)>::empty());
            lemma_raw_view(*expression);
        }
        match expression.get_mut() {
            None => Err(TypeError::Shared),
            Some(node) => {
                let mut raw = RawExpr::Hole;
                std::mem::swap(&mut raw, &mut node.raw);
                let ghost source_raw = raw;
                let (raw, outcome) = resolve_children(types, rules, &mut lexical, false, raw);
                node.raw = raw;
                match outcome {
                    Err(error) => Err(error),
                    Ok(()) => match infer_resolved_node(types, rules, &lexical, false, &node.raw, Ghost(source_raw)) {
                        Err(error) => Err(error),
                        Ok(inferred) => {
                            match inferred {
                                Some(t) => {
                                    node.meta.put_type(t);
                                },
                                None => {},
                            }
                            Ok(())
                        },
                    },
                }
            },
        }
    }
}

/// Products of matrices: the product of an `r x k` matrix and a `k' x c`
/// matrix is an `r x c` matrix, whatever the inner dimensions; a matrix
/// scaled by a number on either side keeps its type.
pub proof fn law_matrix_product_type(r: ExprView, k: ExprView, k2: ExprView, c: ExprView, scalar: TypeView)
    requires
        scalar is Nat || scalar is Int || scalar is Real,
    ensures
        multiply_type(
            TypeView::Matrix(Box::new(r), Box::new(k)),
            TypeView::Matrix(Box::new(k2), Box::new(c)),
        ) == Ok::<TypeView, Seq<char>>(TypeView::Matrix(Box::new(r), Box::new(c))),
        multiply_type(TypeView::Matrix(Box::new(r), Box::new(k)), scalar) == Ok::<TypeView, Seq<char>>(
            TypeView::Matrix(Box::new(r), Box::new(k)),
        ),
        multiply_type(scalar, TypeView::Matrix(Box::new(k2), Box::new(c))) == Ok::<TypeView, Seq<char>>(
            TypeView::Matrix(Box::new(k2), Box::new(c)),
        ),
{
}

/// The typing of a product node under the core rules: `A B` with `A` an
/// `r x k` matrix and `B` a `k' x c` matrix is typed `r x c`, the rows of
/// the left factor and the columns of the right.
pub proof fn law_core_product_of_matrices(r: ExprView, k: ExprView, k2: ExprView, c: ExprView)
    ensures
        core_rule(Operator::Finite(Finop::Times)) is Some,
        apply_rule(
            core_rule(Operator::Finite(Finop::Times))->0,
            seq![
                OperandView::Value(TypeView::Matrix(Box::new(r), Box::new(k))),
                OperandView::Value(TypeView::Matrix(Box::new(k2), Box::new(c))),
            ],
        ) == Ok::<TypeView, Seq<char>>(TypeView::Matrix(Box::new(r), Box::new(c))),
{
    let operands = seq![
        OperandView::Value(TypeView::Matrix(Box::new(r), Box::new(k))),
        OperandView::Value(TypeView::Matrix(Box::new(k2), Box::new(c))),
    ];
    assert(operands.drop_last().len() == 1);
    assert(fold_types(Combination::Product, operands.drop_last()) == value_of(operands[0]));
    assert(fold_types(Combination::Product, operands) == multiply_type(
        TypeView::Matrix(Box::new(r), Box::new(k)),
        TypeView::Matrix(Box::new(k2), Box::new(c)),
    ));
}

/// Typing under the core rules: a transpose swaps its operand's dimensions;
/// a sum of two matrices of one shape has that shape; numeric scalars
/// combine to the least type holding both (natural, then integer, then
/// real); a subscripted sequence has its element type; a trace and a
/// determinant are real; a membership is a truth value.
pub proof fn law_core_operator_types(r: ExprView, c: ExprView, n: ExprView, t: TypeView, anything: OperandView)
    ensures
        apply_rule(
            core_rule(Operator::Unary(Monop::Transpose))->0,
            seq![OperandView::Value(TypeView::Matrix(Box::new(r), Box::new(c)))],
        ) == Ok::<TypeView, Seq<char>>(TypeView::Matrix(Box::new(c), Box::new(r))),
        apply_rule(
            core_rule(Operator::Finite(Finop::Plus))->0,
            seq![
                OperandView::Value(TypeView::Matrix(Box::new(r), Box::new(c))),
                OperandView::Value(TypeView::Matrix(Box::new(r), Box::new(c))),
            ],
        ) == Ok::<TypeView, Seq<char>>(TypeView::Matrix(Box::new(r), Box::new(c))),
        scalar_lub(TypeView::Nat, TypeView::Nat) == Ok::<TypeView, Seq<char>>(TypeView::Nat),
        scalar_lub(TypeView::Nat, TypeView::Int) == Ok::<TypeView, Seq<char>>(TypeView::Int),
        scalar_lub(TypeView::Int, TypeView::Nat) == Ok::<TypeView, Seq<char>>(TypeView::Int),
        scalar_lub(TypeView::Int, TypeView::Real) == Ok::<TypeView, Seq<char>>(TypeView::Real),
        scalar_lub(TypeView::Real, TypeView::Nat) == Ok::<TypeView, Seq<char>>(TypeView::Real),
        multiply_type(TypeView::Nat, TypeView::Nat) == Ok::<TypeView, Seq<char>>(TypeView::Nat),
        apply_rule(
            core_rule(Operator::Binary(Binop::SingleSubscript))->0,
            seq![
                OperandView::Value(TypeView::Sequence(Box::new(ExprView::Type(t)), Box::new(n))),
                OperandView::Value(TypeView::Nat),
            ],
        ) == Ok::<TypeView, Seq<char>>(t),
        apply_rule(
            core_rule(Operator::Unary(Monop::Trace))->0,
            seq![OperandView::Value(TypeView::Matrix(Box::new(r), Box::new(c)))],
        ) == Ok::<TypeView, Seq<char>>(TypeView::Real),
        apply_rule(
            core_rule(Operator::Unary(Monop::Det))->0,
            seq![OperandView::Value(TypeView::Matrix(Box::new(r), Box::new(c)))],
        ) == Ok::<TypeView, Seq<char>>(TypeView::Real),
        apply_rule(core_rule(Operator::Binary(Binop::ElementOf))->0, seq![anything, anything]) == Ok::<
            TypeView,
            Seq<char>,
        >(TypeView::Bool),
{
    let m = TypeView::Matrix(Box::new(r), Box::new(c));
    let pair = seq![OperandView::Value(m), OperandView::Value(m)];
    assert(pair.drop_last().len() == 1);
    assert(fold_types(Combination::Sum, pair.drop_last()) == value_of(pair[0]));
    assert(fold_types(Combination::Sum, pair) == add_type(m, m));
    let single = seq![OperandView::Value(m)];
    assert(!(exists|i: int| 0 <= i < single.len() && !(single[i] is Value)));
}

} // verus!
