//! Copies of expression trees that share no node with the original.
use vstd::prelude::*;

use crate::metadata::{
    all_clones_everywhere, clones_everywhere, comparison_clones_everywhere, logic_clones_everywhere, type_clones_everywhere,
};
use crate::view::{comparison_views, logic_views, type_view, views};
use crate::{Cmp, CmpChain, Expr, Logic, LogicChain, Matrix, Range, RawExpr, TypeExpr};

verus! {

/// A copy of the tree whose nodes are all newly allocated; the model is
/// unchanged and every node's metadata is a clone of the original's.
pub fn deep_clone<Metadata: Clone>(expression: &Expr<Metadata>) -> (copy: Expr<Metadata>)
    ensures
        copy@ == expression@,
        cloned::<Metadata>(expression.node().meta, copy.node().meta),
        clones_everywhere(copy, *expression),
    decreases *expression, 0nat,
{
    let raw = match expression.raw() {
        RawExpr::Hole => RawExpr::Hole,
        RawExpr::Ellipsis => RawExpr::Ellipsis,
        RawExpr::ImplicitDimension(dimension) => RawExpr::ImplicitDimension(*dimension),
        RawExpr::BoundNatural(index) => RawExpr::BoundNatural(*index),
        RawExpr::IdentityMatrix { dimension } => RawExpr::IdentityMatrix { dimension: *dimension },
        RawExpr::StandardBasis { index, dimension } => RawExpr::StandardBasis {
            index: deep_clone(&index),
            dimension: *dimension,
        },
        RawExpr::ZeroMatrix { rows, cols } => RawExpr::ZeroMatrix { rows: *rows, cols: *cols },
        RawExpr::Type(ty) => RawExpr::Type(deep_clone_type(ty)),
        RawExpr::Variable(variable) => RawExpr::Variable(variable.duplicate()),
        RawExpr::NatLiteral(value) => RawExpr::NatLiteral(*value),
        RawExpr::Matrix(matrix) => RawExpr::Matrix(Matrix {
            rows: matrix.rows,
            cols: matrix.cols,
            elements: deep_clone_all(&matrix.elements),
        }),
        RawExpr::Monop(op, expression) => RawExpr::Monop(*op, deep_clone(&expression)),
        RawExpr::Binop(op, left, right) => RawExpr::Binop(
            *op,
            deep_clone(&left),
            deep_clone(&right),
        ),
        RawExpr::Triop(op, first, second, third) => RawExpr::Triop(
            *op,
            deep_clone(&first),
            deep_clone(&second),
            deep_clone(&third),
        ),
        RawExpr::Finop(op, expressions) => RawExpr::Finop(*op, deep_clone_all(expressions)),
        RawExpr::CmpChain(chain) => RawExpr::CmpChain(CmpChain {
            start: deep_clone(&chain.start),
            assertions: deep_clone_comparisons(&chain.assertions),
        }),
        RawExpr::LogicChain(chain) => RawExpr::LogicChain(LogicChain {
            start: deep_clone(&chain.start),
            assertions: deep_clone_logic(&chain.assertions),
        }),
        RawExpr::Seqop(op, range, body) => RawExpr::Seqop(
            *op,
            Range {
                index_variable: range.index_variable.duplicate(),
                from: deep_clone(&range.from),
                to: deep_clone(&range.to),
            },
            deep_clone(&body),
        ),
        RawExpr::SetComprehension { variable, domain, predicate } => RawExpr::SetComprehension {
            variable: variable.duplicate(),
            domain: deep_clone_type(domain),
            predicate: deep_clone(&predicate),
        },
    };
    Expr::with_metadata(expression.meta().clone(), raw)
}

/// A copy of a type expression whose dimension expressions are deep copies.
pub fn deep_clone_type<Metadata: Clone>(ty: &TypeExpr<Metadata>) -> (copy: TypeExpr<Metadata>)
    ensures
        type_view(copy) == type_view(*ty),
        type_clones_everywhere(copy, *ty),
    decreases *ty, 0nat,
{
    match ty {
        TypeExpr::Bool => TypeExpr::Bool,
        TypeExpr::Nat => TypeExpr::Nat,
        TypeExpr::Int => TypeExpr::Int,
        TypeExpr::Real => TypeExpr::Real,
        TypeExpr::Matrix(rows, cols) => TypeExpr::Matrix(deep_clone(rows), deep_clone(cols)),
        TypeExpr::Sequence(element, size) => TypeExpr::Sequence(deep_clone(element), deep_clone(size)),
        TypeExpr::SetOf(element) => {
            let inner: &TypeExpr<Metadata> = element;
            TypeExpr::SetOf(Box::new(deep_clone_type(inner)))
        },
    }
}

pub fn deep_clone_all<Metadata: Clone>(expressions: &Vec<Expr<Metadata>>) -> (result: Vec<Expr<Metadata>>)
    ensures
        views(result@) == views(expressions@),
        all_clones_everywhere(result@, expressions@),
    decreases expressions@, 0nat,
{
    let mut result: Vec<Expr<Metadata>> = Vec::new();
    let mut i: usize = 0;
    while i < expressions.len()
        invariant
            i <= expressions.len(),
            views(result@) == views(expressions@.take(i as int)),
            all_clones_everywhere(result@, expressions@.take(i as int)),
        decreases expressions.len() - i,
    {
        proof {
            assert(expressions@.take(i + 1).drop_last() =~= expressions@.take(i as int));
            assert(decreases_to!(expressions@ => expressions@[i as int]));
        }
        let ghost before = result@;
        result.push(deep_clone(&expressions[i]));
        proof {
            assert(result@.drop_last() =~= before);
        }
        i = i + 1;
    }
    proof {
        assert(expressions@.take(expressions.len() as int) =~= expressions@);
    }
    result
}

pub fn deep_clone_comparisons<Metadata: Clone>(assertions: &Vec<(Cmp, Expr<Metadata>)>) -> (result: Vec<(Cmp, Expr<Metadata>)>)
    ensures
        comparison_views(result@) == comparison_views(assertions@),
        comparison_clones_everywhere(result@, assertions@),
    decreases assertions@, 0nat,
{
    let mut result: Vec<(Cmp, Expr<Metadata>)> = Vec::new();
    let mut i: usize = 0;
    while i < assertions.len()
        invariant
            i <= assertions.len(),
            comparison_views(result@) == comparison_views(assertions@.take(i as int)),
            comparison_clones_everywhere(result@, assertions@.take(i as int)),
        decreases assertions.len() - i,
    {
        proof {
            assert(assertions@.take(i + 1).drop_last() =~= assertions@.take(i as int));
            assert(decreases_to!(assertions@ => assertions@[i as int]));
        }
        let ghost before = result@;
        let (op, expression) = &assertions[i];
        result.push((*op, deep_clone(expression)));
        proof {
            assert(result@.drop_last() =~= before);
        }
        i = i + 1;
    }
    proof {
        assert(assertions@.take(assertions.len() as int) =~= assertions@);
    }
    result
}

pub fn deep_clone_logic<Metadata: Clone>(assertions: &Vec<(Logic, Expr<Metadata>)>) -> (result: Vec<(Logic, Expr<Metadata>)>)
    ensures
        logic_views(result@) == logic_views(assertions@),
        logic_clones_everywhere(result@, assertions@),
    decreases assertions@, 0nat,
{
    let mut result: Vec<(Logic, Expr<Metadata>)> = Vec::new();
    let mut i: usize = 0;
    while i < assertions.len()
        invariant
            i <= assertions.len(),
            logic_views(result@) == logic_views(assertions@.take(i as int)),
            logic_clones_everywhere(result@, assertions@.take(i as int)),
        decreases assertions.len() - i,
    {
        proof {
            assert(assertions@.take(i + 1).drop_last() =~= assertions@.take(i as int));
            assert(decreases_to!(assertions@ => assertions@[i as int]));
        }
        let ghost before = result@;
        let (op, expression) = &assertions[i];
        result.push((*op, deep_clone(expression)));
        proof {
            assert(result@.drop_last() =~= before);
        }
        i = i + 1;
    }
    proof {
        assert(assertions@.take(assertions.len() as int) =~= assertions@);
    }
    result
}

} // verus!
