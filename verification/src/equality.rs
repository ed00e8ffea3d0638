//! Structural equality of expression models, ignoring metadata.
use vstd::prelude::*;

use crate::view::{
    comparison_views, lemma_comparison_views, lemma_logic_views, lemma_views, logic_views,
    type_view, views, ExprView, TypeView,
};
use crate::{Cmp, Expr, Logic, RawExpr, TypeExpr};

verus! {

/// Whether two expressions have the same model.
pub fn same_model<A, B>(left: &Expr<A>, right: &Expr<B>) -> (same: bool)
    ensures
        same == (left@ == right@),
    decreases *left, 0nat,
{
    match (left.raw(), right.raw()) {
        (RawExpr::Hole, RawExpr::Hole) => true,
        (RawExpr::Ellipsis, RawExpr::Ellipsis) => true,
        (RawExpr::ImplicitDimension(a), RawExpr::ImplicitDimension(b)) => a.0 == b.0,
        (RawExpr::BoundNatural(a), RawExpr::BoundNatural(b)) => a.0 == b.0,
        (RawExpr::IdentityMatrix { dimension: a }, RawExpr::IdentityMatrix { dimension: b }) => a.0 == b.0,
        (
            RawExpr::StandardBasis { index: ai, dimension: ad },
            RawExpr::StandardBasis { index: bi, dimension: bd },
        ) => ad.0 == bd.0 && same_model(ai, bi),
        (RawExpr::ZeroMatrix { rows: ar, cols: ac }, RawExpr::ZeroMatrix { rows: br, cols: bc }) => {
            ar.0 == br.0 && ac.0 == bc.0
        },
        (RawExpr::Type(a), RawExpr::Type(b)) => same_type_model(a, b),
        (RawExpr::Variable(a), RawExpr::Variable(b)) => a.same(b),
        (RawExpr::NatLiteral(a), RawExpr::NatLiteral(b)) => *a == *b,
        (RawExpr::Matrix(a), RawExpr::Matrix(b)) => {
            a.rows == b.rows && a.cols == b.cols && same_models(&a.elements, &b.elements)
        },
        (RawExpr::Monop(ao, a), RawExpr::Monop(bo, b)) => *ao == *bo && same_model(a, b),
        (RawExpr::Binop(ao, al, ar), RawExpr::Binop(bo, bl, br)) => {
            *ao == *bo && same_model(al, bl) && same_model(ar, br)
        },
        (RawExpr::Triop(ao, aa, ab, ac), RawExpr::Triop(bo, ba, bb, bc)) => {
            *ao == *bo && same_model(aa, ba) && same_model(ab, bb) && same_model(ac, bc)
        },
        (RawExpr::Finop(ao, a), RawExpr::Finop(bo, b)) => *ao == *bo && same_models(a, b),
        (RawExpr::CmpChain(a), RawExpr::CmpChain(b)) => {
            same_model(&a.start, &b.start) && same_comparisons(&a.assertions, &b.assertions)
        },
        (RawExpr::LogicChain(a), RawExpr::LogicChain(b)) => {
            same_model(&a.start, &b.start) && same_logic(&a.assertions, &b.assertions)
        },
        (RawExpr::Seqop(ao, ar, ab), RawExpr::Seqop(bo, br, bb)) => {
            *ao == *bo && ar.index_variable.same(&br.index_variable) && same_model(&ar.from, &br.from)
                && same_model(&ar.to, &br.to) && same_model(ab, bb)
        },
        (
            RawExpr::SetComprehension { variable: av, domain: ad, predicate: ap },
            RawExpr::SetComprehension { variable: bv, domain: bd, predicate: bp },
        ) => av.same(bv) && same_type_model(ad, bd) && same_model(ap, bp),
        _ => false,
    }
}

/// Whether two type expressions have the same model.
pub fn same_type_model<A, B>(left: &TypeExpr<A>, right: &TypeExpr<B>) -> (same: bool)
    ensures
        same == (type_view(*left) == type_view(*right)),
    decreases *left, 0nat,
{
    match (left, right) {
        (TypeExpr::Bool, TypeExpr::Bool) => true,
        (TypeExpr::Nat, TypeExpr::Nat) => true,
        (TypeExpr::Int, TypeExpr::Int) => true,
        (TypeExpr::Real, TypeExpr::Real) => true,
        (TypeExpr::Matrix(ar, ac), TypeExpr::Matrix(br, bc)) => same_model(ar, br) && same_model(ac, bc),
        (TypeExpr::Sequence(ae, an), TypeExpr::Sequence(be, bn)) => same_model(ae, be) && same_model(an, bn),
        (TypeExpr::SetOf(a), TypeExpr::SetOf(b)) => {
            let a: &TypeExpr<A> = a;
            let b: &TypeExpr<B> = b;
            same_type_model(a, b)
        },
        _ => false,
    }
}

/// Whether two lists of expressions have the same models, in order.
pub fn same_models<A, B>(left: &Vec<Expr<A>>, right: &Vec<Expr<B>>) -> (same: bool)
    ensures
        same == (views(left@) == views(right@)),
    decreases left@, 0nat,
{
    proof {
        lemma_views(left@);
        lemma_views(right@);
    }
    if left.len() != right.len() {
        return false;
    }
    let mut i: usize = 0;
    while i < left.len()
        invariant
            i <= left.len(),
            left.len() == right.len(),
            views(left@).len() == left.len(),
            views(right@).len() == right.len(),
            forall|j: int| 0 <= j < left.len() ==> #[trigger] views(left@)[j] == left@[j]@,
            forall|j: int| 0 <= j < right.len() ==> #[trigger] views(right@)[j] == right@[j]@,
            forall|j: int| 0 <= j < i ==> #[trigger] views(left@)[j] == views(right@)[j],
        decreases left.len() - i,
    {
        proof {
            assert(decreases_to!(left@ => left@[i as int]));
        }
        if !same_model(&left[i], &right[i]) {
            proof {
                assert(views(left@)[i as int] != views(right@)[i as int]);
            }
            return false;
        }
        i = i + 1;
    }
    proof {
        assert(views(left@) =~= views(right@));
    }
    true
}

/// Whether two lists of comparison links have the same models, in order.
pub fn same_comparisons<A, B>(left: &Vec<(Cmp, Expr<A>)>, right: &Vec<(Cmp, Expr<B>)>) -> (same: bool)
    ensures
        same == (comparison_views(left@) == comparison_views(right@)),
    decreases left@, 0nat,
{
    proof {
        lemma_comparison_views(left@);
        lemma_comparison_views(right@);
    }
    if left.len() != right.len() {
        return false;
    }
    let mut i: usize = 0;
    while i < left.len()
        invariant
            i <= left.len(),
            left.len() == right.len(),
            comparison_views(left@).len() == left.len(),
            comparison_views(right@).len() == right.len(),
            forall|j: int| 0 <= j < left.len() ==> #[trigger] comparison_views(left@)[j] == (left@[j].0, left@[j].1@),
            forall|j: int| 0 <= j < right.len() ==> #[trigger] comparison_views(right@)[j] == (right@[j].0, right@[j].1@),
            forall|j: int| 0 <= j < i ==> #[trigger] comparison_views(left@)[j] == comparison_views(right@)[j],
        decreases left.len() - i,
    {
        proof {
            assert(decreases_to!(left@ => left@[i as int]));
        }
        let (ao, ae) = &left[i];
        let (bo, be) = &right[i];
        if *ao != *bo || !same_model(ae, be) {
            proof {
                assert(comparison_views(left@)[i as int] != comparison_views(right@)[i as int]);
            }
            return false;
        }
        i = i + 1;
    }
    proof {
        assert(comparison_views(left@) =~= comparison_views(right@));
    }
    true
}

/// Whether two lists of logic links have the same models, in order.
pub fn same_logic<A, B>(left: &Vec<(Logic, Expr<A>)>, right: &Vec<(Logic, Expr<B>)>) -> (same: bool)
    ensures
        same == (logic_views(left@) == logic_views(right@)),
    decreases left@, 0nat,
{
    proof {
        lemma_logic_views(left@);
        lemma_logic_views(right@);
    }
    if left.len() != right.len() {
        return false;
    }
    let mut i: usize = 0;
    while i < left.len()
        invariant
            i <= left.len(),
            left.len() == right.len(),
            logic_views(left@).len() == left.len(),
            logic_views(right@).len() == right.len(),
            forall|j: int| 0 <= j < left.len() ==> #[trigger] logic_views(left@)[j] == (left@[j].0, left@[j].1@),
            forall|j: int| 0 <= j < right.len() ==> #[trigger] logic_views(right@)[j] == (right@[j].0, right@[j].1@),
            forall|j: int| 0 <= j < i ==> #[trigger] logic_views(left@)[j] == logic_views(right@)[j],
        decreases left.len() - i,
    {
        proof {
            assert(decreases_to!(left@ => left@[i as int]));
        }
        let (ao, ae) = &left[i];
        let (bo, be) = &right[i];
        if *ao != *bo || !same_model(ae, be) {
            proof {
                assert(logic_views(left@)[i as int] != logic_views(right@)[i as int]);
            }
            return false;
        }
        i = i + 1;
    }
    proof {
        assert(logic_views(left@) =~= logic_views(right@));
    }
    true
}

} // verus!
