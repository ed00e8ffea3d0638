//! Which metadata the nodes of a tree carry.
use vstd::prelude::*;

use crate::{Cmp, Expr, Logic, RawExpr, TypeExpr};

verus! {

/// Every node of the tree, its type expressions included, carries metadata
/// that its type's `default` returns.
pub open spec fn default_everywhere<M: Default>(e: Expr<M>) -> bool
    decreases e, 0nat,
{
    &&& call_ensures(M::default, (), e.node().meta)
    &&& match e.node().raw {
        RawExpr::StandardBasis { index, .. } => default_everywhere(index),
        RawExpr::Type(t) => type_default_everywhere(t),
        RawExpr::Matrix(m) => all_default_everywhere(m.elements@),
        RawExpr::Monop(_, a) => default_everywhere(a),
        RawExpr::Binop(_, a, b) => default_everywhere(a) && default_everywhere(b),
        RawExpr::Triop(_, a, b, c) => default_everywhere(a) && default_everywhere(b) && default_everywhere(c),
        RawExpr::Finop(_, v) => all_default_everywhere(v@),
        RawExpr::CmpChain(chain) => default_everywhere(chain.start) && comparisons_default_everywhere(
            chain.assertions@,
        ),
        RawExpr::LogicChain(chain) => default_everywhere(chain.start) && logic_default_everywhere(chain.assertions@),
        RawExpr::Seqop(_, range, body) => default_everywhere(range.from) && default_everywhere(range.to)
            && default_everywhere(body),
        RawExpr::SetComprehension { domain, predicate, .. } => type_default_everywhere(domain) && default_everywhere(
            predicate,
        ),
        _ => true,
    }
}

/// Every node of the type's dimension and element expressions carries
/// default metadata.
pub open spec fn type_default_everywhere<M: Default>(t: TypeExpr<M>) -> bool
    decreases t, 0nat,
{
    match t {
        TypeExpr::Matrix(r, c) => default_everywhere(r) && default_everywhere(c),
        TypeExpr::Sequence(e, n) => default_everywhere(e) && default_everywhere(n),
        TypeExpr::SetOf(e) => type_default_everywhere(*e),
        _ => true,
    }
}

/// Every tree of the list carries default metadata everywhere.
pub open spec fn all_default_everywhere<M: Default>(s: Seq<Expr<M>>) -> bool
    decreases s, 1nat,
{
    if s.len() == 0 {
        true
    } else {
        all_default_everywhere(s.drop_last()) && default_everywhere(s.last())
    }
}

/// Every tree of the comparison links carries default metadata everywhere.
pub open spec fn comparisons_default_everywhere<M: Default>(s: Seq<(Cmp, Expr<M>)>) -> bool
    decreases s, 1nat,
{
    if s.len() == 0 {
        true
    } else {
        comparisons_default_everywhere(s.drop_last()) && default_everywhere(s.last().1)
    }
}

/// Every tree of the logic links carries default metadata everywhere.
pub open spec fn logic_default_everywhere<M: Default>(s: Seq<(Logic, Expr<M>)>) -> bool
    decreases s, 1nat,
{
    if s.len() == 0 {
        true
    } else {
        logic_default_everywhere(s.drop_last()) && default_everywhere(s.last().1)
    }
}


/// Every node of `copy` carries a clone of the metadata at the same node of
/// `original`, the two trees having the same shape.
pub open spec fn clones_everywhere<M: Clone>(copy: Expr<M>, original: Expr<M>) -> bool
    decreases original, 0nat,
{
    &&& cloned::<M>(original.node().meta, copy.node().meta)
    &&& match (copy.node().raw, original.node().raw) {
        (RawExpr::StandardBasis { index: a, .. }, RawExpr::StandardBasis { index: b, .. }) => clones_everywhere(a, b),
        (RawExpr::Type(a), RawExpr::Type(b)) => type_clones_everywhere(a, b),
        (RawExpr::Matrix(a), RawExpr::Matrix(b)) => all_clones_everywhere(a.elements@, b.elements@),
        (RawExpr::Monop(_, a), RawExpr::Monop(_, b)) => clones_everywhere(a, b),
        (RawExpr::Binop(_, a, c), RawExpr::Binop(_, b, d)) => clones_everywhere(a, b) && clones_everywhere(c, d),
        (RawExpr::Triop(_, a, c, e), RawExpr::Triop(_, b, d, f)) => clones_everywhere(a, b) && clones_everywhere(c, d)
            && clones_everywhere(e, f),
        (RawExpr::Finop(_, a), RawExpr::Finop(_, b)) => all_clones_everywhere(a@, b@),
        (RawExpr::CmpChain(a), RawExpr::CmpChain(b)) => clones_everywhere(a.start, b.start)
            && comparison_clones_everywhere(a.assertions@, b.assertions@),
        (RawExpr::LogicChain(a), RawExpr::LogicChain(b)) => clones_everywhere(a.start, b.start)
            && logic_clones_everywhere(a.assertions@, b.assertions@),
        (RawExpr::Seqop(_, r, a), RawExpr::Seqop(_, q, b)) => clones_everywhere(r.from, q.from) && clones_everywhere(
            r.to,
            q.to,
        ) && clones_everywhere(a, b),
        (
            RawExpr::SetComprehension { domain: a, predicate: c, .. },
            RawExpr::SetComprehension { domain: b, predicate: d, .. },
        ) => type_clones_everywhere(a, b) && clones_everywhere(c, d),
        _ => true,
    }
}

/// The dimension and element expressions of `copy` clone those of
/// `original` at every node.
pub open spec fn type_clones_everywhere<M: Clone>(copy: TypeExpr<M>, original: TypeExpr<M>) -> bool
    decreases original, 0nat,
{
    match (copy, original) {
        (TypeExpr::Matrix(a, c), TypeExpr::Matrix(b, d)) => clones_everywhere(a, b) && clones_everywhere(c, d),
        (TypeExpr::Sequence(a, c), TypeExpr::Sequence(b, d)) => clones_everywhere(a, b) && clones_everywhere(c, d),
        (TypeExpr::SetOf(a), TypeExpr::SetOf(b)) => type_clones_everywhere(*a, *b),
        _ => true,
    }
}

/// Each tree of `copies` clones the tree of `originals` at its position.
pub open spec fn all_clones_everywhere<M: Clone>(copies: Seq<Expr<M>>, originals: Seq<Expr<M>>) -> bool
    decreases originals, 1nat,
{
    if originals.len() == 0 || copies.len() != originals.len() {
        copies.len() == originals.len()
    } else {
        all_clones_everywhere(copies.drop_last(), originals.drop_last()) && clones_everywhere(
            copies.last(),
            originals.last(),
        )
    }
}

/// Each tree of the comparison links `copies` clones the one of `originals`.
pub open spec fn comparison_clones_everywhere<M: Clone>(
    copies: Seq<(Cmp, Expr<M>)>,
    originals: Seq<(Cmp, Expr<M>)>,
) -> bool
    decreases originals, 1nat,
{
    if originals.len() == 0 || copies.len() != originals.len() {
        copies.len() == originals.len()
    } else {
        comparison_clones_everywhere(copies.drop_last(), originals.drop_last()) && clones_everywhere(
            copies.last().1,
            originals.last().1,
        )
    }
}

/// Each tree of the logic links `copies` clones the one of `originals`.
pub open spec fn logic_clones_everywhere<M: Clone>(
    copies: Seq<(Logic, Expr<M>)>,
    originals: Seq<(Logic, Expr<M>)>,
) -> bool
    decreases originals, 1nat,
{
    if originals.len() == 0 || copies.len() != originals.len() {
        copies.len() == originals.len()
    } else {
        logic_clones_everywhere(copies.drop_last(), originals.drop_last()) && clones_everywhere(
            copies.last().1,
            originals.last().1,
        )
    }
}

} // verus!
