//! Environment-specific elaboration of symbolically typed expressions: the
//! substitution of concrete values for sequence indices, and the check that
//! an elaborated forest holds only the scalar syntax that solvers accept.
use vstd::prelude::*;

use crate::context::{Existence, SideCondition};
use crate::expression_utils::{max_bound_index, size};
use crate::logic_lowering::chain_lowerable;
use crate::type_expr::{
    abstracted_type, contains_unbound_natural, has_unbound_type, opened_type, substitute_type_variable,
};
use crate::type_resolver::{annotation, MaybeTyped, TypeError, TypedMetadata};
use crate::view::{
    comparison_views, lemma_comparison_views, lemma_logic_views, lemma_views, logic_views, type_view, views,
    ExprView, TypeView, VariableView,
};
use crate::{
    Binop, Cmp, CmpChain, Expr, Finop, Logic, LogicChain, Matrix, Monop, NaturalEvaluationError, Range, RawExpr,
    TypeExpr, Variable,
};

verus! {

/// An expression elaborated for a concrete environment, with the values its
/// preparation introduced, for the position it was prepared for.
pub struct ElaboratedExpression {
    pub expression: Expr<TypedMetadata>,
    pub side_conditions: Vec<SideCondition<TypedMetadata>>,
    pub context: crate::context::VisitContext,
}

/// Why an expression cannot be elaborated for a concrete environment.
#[derive(Clone, Debug, PartialEq, Eq)]
pub enum ElaborationError {
    Type(TypeError),
    Natural(NaturalEvaluationError),
    Unsupported(&'static str),
    InvalidOperands(&'static str),
    Shape(&'static str),
    Empty(&'static str),
    DimensionOverflow,
    InvalidMatrixLiteral,
}

// ---------------------------------------------------------------------------
// Substitution of a concrete index value
// ---------------------------------------------------------------------------

/// The tree with every occurrence of the index `v` replaced by the literal
/// `n`, except inside the scope of a binder of the same name.
pub open spec fn index_substituted(e: ExprView, v: VariableView, n: u64) -> ExprView
    decreases e, 0nat,
{
    match e {
        ExprView::Variable(x) => if x == v { ExprView::NatLiteral(n) } else { e },
        ExprView::StandardBasis(index, d) => ExprView::StandardBasis(Box::new(index_substituted(*index, v, n)), d),
        ExprView::Type(t) => ExprView::Type(index_substituted_type(t, v, n)),
        ExprView::Matrix(rows, cols, elements) => ExprView::Matrix(rows, cols, index_substituted_seq(elements, v, n)),
        ExprView::Monop(op, x) => ExprView::Monop(op, Box::new(index_substituted(*x, v, n))),
        ExprView::Binop(op, x, y) => ExprView::Binop(
            op,
            Box::new(index_substituted(*x, v, n)),
            Box::new(index_substituted(*y, v, n)),
        ),
        ExprView::Triop(op, x, y, z) => ExprView::Triop(
            op,
            Box::new(index_substituted(*x, v, n)),
            Box::new(index_substituted(*y, v, n)),
            Box::new(index_substituted(*z, v, n)),
        ),
        ExprView::Finop(op, operands) => ExprView::Finop(op, index_substituted_seq(operands, v, n)),
        ExprView::CmpChain(start, links) => ExprView::CmpChain(
            Box::new(index_substituted(*start, v, n)),
            index_substituted_links(links, v, n),
        ),
        ExprView::LogicChain(start, links) => ExprView::LogicChain(
            Box::new(index_substituted(*start, v, n)),
            index_substituted_links(links, v, n),
        ),
        ExprView::Seqop(op, bv, from, to, body) => ExprView::Seqop(
            op,
            bv,
            Box::new(index_substituted(*from, v, n)),
            Box::new(index_substituted(*to, v, n)),
            Box::new(if bv == v { *body } else { index_substituted(*body, v, n) }),
        ),
        ExprView::SetComprehension(bv, domain, predicate) => ExprView::SetComprehension(
            bv,
            index_substituted_type(domain, v, n),
            Box::new(if bv == v { *predicate } else { index_substituted(*predicate, v, n) }),
        ),
        _ => e,
    }
}

/// `index_substituted` over the dimension expressions of a type.
pub open spec fn index_substituted_type(t: TypeView, v: VariableView, n: u64) -> TypeView
    decreases t, 0nat,
{
    match t {
        TypeView::Matrix(x, y) => TypeView::Matrix(
            Box::new(index_substituted(*x, v, n)),
            Box::new(index_substituted(*y, v, n)),
        ),
        TypeView::Sequence(x, y) => TypeView::Sequence(
            Box::new(index_substituted(*x, v, n)),
            Box::new(index_substituted(*y, v, n)),
        ),
        TypeView::SetOf(inner) => TypeView::SetOf(Box::new(index_substituted_type(*inner, v, n))),
        _ => t,
    }
}

/// `index_substituted` over a list of trees.
pub open spec fn index_substituted_seq(s: Seq<ExprView>, v: VariableView, n: u64) -> Seq<ExprView>
    decreases s, 1nat,
{
    if s.len() == 0 {
        s
    } else {
        index_substituted_seq(s.drop_last(), v, n).push(index_substituted(s.last(), v, n))
    }
}

/// `index_substituted` over the trees of a list of links.
pub open spec fn index_substituted_links<O>(s: Seq<(O, ExprView)>, v: VariableView, n: u64) -> Seq<(O, ExprView)>
    decreases s, 1nat,
{
    if s.len() == 0 {
        s
    } else {
        index_substituted_links(s.drop_last(), v, n).push((s.last().0, index_substituted(s.last().1, v, n)))
    }
}

/// A recorded type after the substitution of `n` for `v`: the type with `v`
/// abstracted to a sequence position that is then opened at `n`.
pub open spec fn retyped(m: Option<TypeView>, v: VariableView, n: u64) -> Option<TypeView> {
    match m {
        Some(t) => Some(
            opened_type(abstracted_type(t, v, ExprView::BoundNatural(0), 0), ExprView::NatLiteral(n), 0),
        ),
        None => None,
    }
}

/// Whether a recorded type is small enough to be rewritten with machine
/// integers: its node count and de Bruijn indices stay within half the
/// address space.
pub open spec fn annotation_fits(m: Option<TypeView>) -> bool {
    m matches Some(t) ==> size(ExprView::Type(t)) <= usize::MAX / 2 && max_bound_index(ExprView::Type(t)) <= usize::MAX / 2
}

/// Whether every type recorded in the tree fits.
pub open spec fn annotations_fit(e: Expr<TypedMetadata>) -> bool
    decreases e, 1nat,
{
    annotation_fits(annotation(e)) && children_fit(e.node().raw)
}

pub open spec fn children_fit(raw: RawExpr<TypedMetadata>) -> bool
    decreases raw, 0nat,
{
    match raw {
        RawExpr::StandardBasis { index, .. } => annotations_fit(index),
        RawExpr::Type(t) => type_fits(t),
        RawExpr::Matrix(m) => seq_fits(m.elements@),
        RawExpr::Monop(_, x) => annotations_fit(x),
        RawExpr::Binop(_, x, y) => annotations_fit(x) && annotations_fit(y),
        RawExpr::Triop(_, x, y, z) => annotations_fit(x) && annotations_fit(y) && annotations_fit(
            z),
        RawExpr::Finop(_, xs) => seq_fits(xs@),
        RawExpr::CmpChain(c) => annotations_fit(c.start) && links_fit(c.assertions@),
        RawExpr::LogicChain(c) => annotations_fit(c.start) && links_fit(c.assertions@),
        RawExpr::Seqop(_, range, body) => annotations_fit(range.from) && annotations_fit(range.to)
            && annotations_fit(body),
        RawExpr::SetComprehension { domain, predicate, .. } => type_fits(domain) && annotations_fit(
            predicate),
        _ => true,
    }
}

pub open spec fn type_fits(t: TypeExpr<TypedMetadata>) -> bool
    decreases t, 0nat,
{
    match t {
        TypeExpr::Matrix(x, y) => annotations_fit(x) && annotations_fit(y),
        TypeExpr::Sequence(x, y) => annotations_fit(x) && annotations_fit(y),
        TypeExpr::SetOf(inner) => type_fits(*inner),
        _ => true,
    }
}

pub open spec fn seq_fits(s: Seq<Expr<TypedMetadata>>) -> bool
    decreases s, 1nat,
{
    s.len() == 0 || (seq_fits(s.drop_last()) && annotations_fit(s.last()))
}

pub open spec fn links_fit<O>(s: Seq<(O, Expr<TypedMetadata>)>) -> bool
    decreases s, 1nat,
{
    s.len() == 0 || (links_fit(s.drop_last()) && annotations_fit(s.last().1))
}

/// `new` carries the types of `source` after the substitution of `n` for
/// `v`, node by node, outside the scopes of binders named `v`.
pub open spec fn retyped_as(new: Expr<TypedMetadata>, source: Expr<TypedMetadata>, v: VariableView, n: u64) -> bool
    decreases source, 1nat,
{
    annotation(new) == retyped(annotation(source), v, n) && children_retyped_as(new.node().raw, source.node().raw, v, n)
}

pub open spec fn children_retyped_as(
    new: RawExpr<TypedMetadata>,
    source: RawExpr<TypedMetadata>,
    v: VariableView,
    n: u64,
) -> bool
    decreases source, 0nat,
{
    match source {
        RawExpr::StandardBasis { index: o, .. } => match new {
            RawExpr::StandardBasis { index: x, .. } => retyped_as(x, o, v, n),
            _ => false,
        },
        RawExpr::Type(ot) => match new {
            RawExpr::Type(nt) => type_retyped_as(nt, ot, v, n),
            _ => false,
        },
        RawExpr::Matrix(om) => match new {
            RawExpr::Matrix(nm) => seq_retyped_as(nm.elements@, om.elements@, v, n),
            _ => false,
        },
        RawExpr::Monop(_, o) => match new {
            RawExpr::Monop(_, x) => retyped_as(x, o, v, n),
            _ => false,
        },
        RawExpr::Binop(_, ol, or) => match new {
            RawExpr::Binop(_, nl, nr) => retyped_as(nl, ol, v, n) && retyped_as(nr, or, v, n),
            _ => false,
        },
        RawExpr::Triop(_, oa, ob, oc) => match new {
            RawExpr::Triop(_, na, nb, nc) => retyped_as(na, oa, v, n) && retyped_as(nb, ob, v, n) && retyped_as(
                nc,
                oc,
                v,
                n,
            ),
            _ => false,
        },
        RawExpr::Finop(_, os) => match new {
            RawExpr::Finop(_, ns) => seq_retyped_as(ns@, os@, v, n),
            _ => false,
        },
        RawExpr::CmpChain(oc) => match new {
            RawExpr::CmpChain(nc) => retyped_as(nc.start, oc.start, v, n) && links_retyped_as(
                nc.assertions@,
                oc.assertions@,
                v,
                n,
            ),
            _ => false,
        },
        RawExpr::LogicChain(oc) => match new {
            RawExpr::LogicChain(nc) => retyped_as(nc.start, oc.start, v, n) && links_retyped_as(
                nc.assertions@,
                oc.assertions@,
                v,
                n,
            ),
            _ => false,
        },
        RawExpr::Seqop(_, orange, obody) => match new {
            RawExpr::Seqop(_, nrange, nbody) => retyped_as(nrange.from, orange.from, v, n) && retyped_as(
                nrange.to,
                orange.to,
                v,
                n,
            ) && (orange.index_variable.view_variable() == v || retyped_as(nbody, obody, v, n)),
            _ => false,
        },
        RawExpr::SetComprehension { variable, domain: od, predicate: op } => match new {
            RawExpr::SetComprehension { domain: nd, predicate: np, .. } => type_retyped_as(nd, od, v, n) && (
            variable.view_variable() == v || retyped_as(np, op, v, n)),
            _ => false,
        },
        _ => true,
    }
}

pub open spec fn type_retyped_as(
    new: TypeExpr<TypedMetadata>,
    source: TypeExpr<TypedMetadata>,
    v: VariableView,
    n: u64,
) -> bool
    decreases source, 0nat,
{
    match source {
        TypeExpr::Matrix(ox, oy) => match new {
            TypeExpr::Matrix(nx, ny) => retyped_as(nx, ox, v, n) && retyped_as(ny, oy, v, n),
            _ => false,
        },
        TypeExpr::Sequence(ox, oy) => match new {
            TypeExpr::Sequence(nx, ny) => retyped_as(nx, ox, v, n) && retyped_as(ny, oy, v, n),
            _ => false,
        },
        TypeExpr::SetOf(oinner) => match new {
            TypeExpr::SetOf(ninner) => type_retyped_as(*ninner, *oinner, v, n),
            _ => false,
        },
        _ => true,
    }
}

pub open spec fn seq_retyped_as(
    new: Seq<Expr<TypedMetadata>>,
    source: Seq<Expr<TypedMetadata>>,
    v: VariableView,
    n: u64,
) -> bool
    decreases source, 1nat,
{
    new.len() == source.len() && (source.len() == 0 || (seq_retyped_as(new.drop_last(), source.drop_last(), v, n)
        && retyped_as(new.last(), source.last(), v, n)))
}

pub open spec fn links_retyped_as<O>(
    new: Seq<(O, Expr<TypedMetadata>)>,
    source: Seq<(O, Expr<TypedMetadata>)>,
    v: VariableView,
    n: u64,
) -> bool
    decreases source, 1nat,
{
    new.len() == source.len() && (source.len() == 0 || (links_retyped_as(new.drop_last(), source.drop_last(), v, n)
        && retyped_as(new.last().1, source.last().1, v, n)))
}

/// The metadata of a node after the substitution of `value` for `variable`.
fn retyped_metadata(meta: &TypedMetadata, variable: &Variable, value: u64) -> (result: TypedMetadata)
    requires
        annotation_fits(meta.recorded_type()),
    ensures
        result.recorded_type() == retyped(meta.recorded_type(), variable.view_variable(), value),
{
    match meta.get_type() {
        Ok(ty) => {
            let position: Expr<()> = Expr::new(RawExpr::NatLiteral(value));
            TypedMetadata::resolved(substitute_type_variable(&ty, variable, &position))
        },
        Err(_) => meta.duplicate(),
    }
}

/// The tree with every occurrence of the index `variable` replaced by the
/// literal `value`, outside the scopes of binders of the same name, and
/// every recorded type specialized accordingly.
pub fn substitute_index(expression: &Expr<TypedMetadata>, variable: &Variable, value: u64) -> (result: Expr<TypedMetadata>)
    requires
        annotations_fit(*expression),
    ensures
        result@ == index_substituted(expression@, variable.view_variable(), value),
        retyped_as(result, *expression, variable.view_variable(), value),
    decreases *expression, 0nat,
{
    let raw = match expression.raw() {
        RawExpr::SetComprehension { variable: binder, domain, predicate } => RawExpr::SetComprehension {
            variable: binder.duplicate(),
            domain: substitute_type(domain, variable, value),
            predicate: if binder.same(variable) {
                crate::deep_clone::deep_clone(predicate)
            } else {
                substitute_index(predicate, variable, value)
            },
        },
        RawExpr::Variable(found) => if found.same(variable) {
            RawExpr::NatLiteral(value)
        } else {
            RawExpr::Variable(found.duplicate())
        },
        RawExpr::Hole => RawExpr::Hole,
        RawExpr::Ellipsis => RawExpr::Ellipsis,
        RawExpr::ImplicitDimension(dimension) => RawExpr::ImplicitDimension(*dimension),
        RawExpr::BoundNatural(index) => RawExpr::BoundNatural(*index),
        RawExpr::IdentityMatrix { dimension } => RawExpr::IdentityMatrix { dimension: *dimension },
        RawExpr::StandardBasis { index, dimension } => RawExpr::StandardBasis {
            index: substitute_index(index, variable, value),
            dimension: *dimension,
        },
        RawExpr::ZeroMatrix { rows, cols } => RawExpr::ZeroMatrix { rows: *rows, cols: *cols },
        RawExpr::Type(ty) => RawExpr::Type(substitute_type(ty, variable, value)),
        RawExpr::NatLiteral(literal) => RawExpr::NatLiteral(*literal),
        RawExpr::Matrix(matrix) => RawExpr::Matrix(Matrix {
            rows: matrix.rows,
            cols: matrix.cols,
            elements: substitute_index_list(&matrix.elements, variable, value),
        }),
        RawExpr::Monop(op, inner) => RawExpr::Monop(*op, substitute_index(inner, variable, value)),
        RawExpr::Binop(op, left, right) => RawExpr::Binop(
            *op,
            substitute_index(left, variable, value),
            substitute_index(right, variable, value),
        ),
        RawExpr::Triop(op, first, second, third) => RawExpr::Triop(
            *op,
            substitute_index(first, variable, value),
            substitute_index(second, variable, value),
            substitute_index(third, variable, value),
        ),
        RawExpr::Finop(op, expressions) => RawExpr::Finop(*op, substitute_index_list(expressions, variable, value)),
        RawExpr::CmpChain(chain) => RawExpr::CmpChain(CmpChain {
            start: substitute_index(&chain.start, variable, value),
            assertions: substitute_index_comparisons(&chain.assertions, variable, value),
        }),
        RawExpr::LogicChain(chain) => RawExpr::LogicChain(LogicChain {
            start: substitute_index(&chain.start, variable, value),
            assertions: substitute_index_logic(&chain.assertions, variable, value),
        }),
        RawExpr::Seqop(op, range, body) => RawExpr::Seqop(
            *op,
            Range {
                index_variable: range.index_variable.duplicate(),
                from: substitute_index(&range.from, variable, value),
                to: substitute_index(&range.to, variable, value),
            },
            if range.index_variable.same(variable) {
                crate::deep_clone::deep_clone(body)
            } else {
                substitute_index(body, variable, value)
            },
        ),
    };
    let metadata = retyped_metadata(expression.meta(), variable, value);
    Expr::with_metadata(metadata, raw)
}

/// `substitute_index` over the dimension expressions of a type.
pub fn substitute_type(ty: &TypeExpr<TypedMetadata>, variable: &Variable, value: u64) -> (result: TypeExpr<TypedMetadata>)
    requires
        type_fits(*ty),
    ensures
        type_view(result) == index_substituted_type(type_view(*ty), variable.view_variable(), value),
        type_retyped_as(result, *ty, variable.view_variable(), value),
    decreases *ty, 0nat,
{
    match ty {
        TypeExpr::SetOf(element) => {
            let element: &TypeExpr<TypedMetadata> = element;
            TypeExpr::SetOf(Box::new(substitute_type(element, variable, value)))
        },
        TypeExpr::Bool => TypeExpr::Bool,
        TypeExpr::Nat => TypeExpr::Nat,
        TypeExpr::Int => TypeExpr::Int,
        TypeExpr::Real => TypeExpr::Real,
        TypeExpr::Matrix(rows, cols) => TypeExpr::Matrix(
            substitute_index(rows, variable, value),
            substitute_index(cols, variable, value),
        ),
        TypeExpr::Sequence(element, length) => TypeExpr::Sequence(
            substitute_index(element, variable, value),
            substitute_index(length, variable, value),
        ),
    }
}

/// `substitute_index` over a list of trees.
fn substitute_index_list(expressions: &Vec<Expr<TypedMetadata>>, variable: &Variable, value: u64) -> (result: Vec<
    Expr<TypedMetadata>,
>)
    requires
        seq_fits(expressions@),
    ensures
        views(result@) == index_substituted_seq(views(expressions@), variable.view_variable(), value),
        seq_retyped_as(result@, expressions@, variable.view_variable(), value),
    decreases expressions@, 0nat,
{
    let ghost v = variable.view_variable();
    let ghost all = views(expressions@);
    proof {
        lemma_views(expressions@);
        lemma_seq_fits_prefix(expressions@);
    }
    let mut result: Vec<Expr<TypedMetadata>> = Vec::new();
    let mut i: usize = 0;
    while i < expressions.len()
        invariant
            i <= expressions.len(),
            v == variable.view_variable(),
            all == views(expressions@),
            all.len() == expressions.len(),
            forall|j: int| 0 <= j < expressions.len() ==> #[trigger] all[j] == expressions@[j]@,
            forall|j: int| 0 <= j < expressions.len() ==> annotations_fit(#[trigger] expressions@[j]),
            views(result@) == index_substituted_seq(all.take(i as int), v, value),
            seq_retyped_as(result@, expressions@.take(i as int), v, value),
        decreases expressions.len() - i,
    {
        proof {
            assert(all.take(i + 1).drop_last() =~= all.take(i as int));
            assert(expressions@.take(i + 1).drop_last() =~= expressions@.take(i as int));
            assert(decreases_to!(expressions@ => expressions@[i as int]));
        }
        let ghost before = result@;
        let substituted = substitute_index(&expressions[i], variable, value);
        result.push(substituted);
        proof {
            assert(result@.drop_last() =~= before);
            assert(result@.last() == substituted);
            assert(all.take(i + 1).last() == all[i as int]);
            assert(expressions@.take(i + 1).last() == expressions@[i as int]);
            assert(views(result@) == views(before).push(substituted@));
            assert(seq_retyped_as(result@, expressions@.take(i + 1), v, value));
        }
        i = i + 1;
    }
    proof {
        assert(all.take(expressions.len() as int) =~= all);
        assert(expressions@.take(expressions.len() as int) =~= expressions@);
    }
    result
}

/// `substitute_index` over the trees of a list of comparison links.
fn substitute_index_comparisons(links: &Vec<(Cmp, Expr<TypedMetadata>)>, variable: &Variable, value: u64) -> (result: Vec<
    (Cmp, Expr<TypedMetadata>),
>)
    requires
        links_fit(links@),
    ensures
        comparison_views(result@) == index_substituted_links(comparison_views(links@), variable.view_variable(), value),
        links_retyped_as(result@, links@, variable.view_variable(), value),
    decreases links@, 0nat,
{
    let ghost v = variable.view_variable();
    let ghost all = comparison_views(links@);
    proof {
        lemma_comparison_views(links@);
        lemma_links_fit_prefix(links@);
    }
    let mut result: Vec<(Cmp, Expr<TypedMetadata>)> = Vec::new();
    let mut i: usize = 0;
    while i < links.len()
        invariant
            i <= links.len(),
            v == variable.view_variable(),
            all == comparison_views(links@),
            all.len() == links.len(),
            forall|j: int| 0 <= j < links.len() ==> #[trigger] all[j] == (links@[j].0, links@[j].1@),
            forall|j: int| 0 <= j < links.len() ==> annotations_fit(#[trigger] links@[j].1),
            comparison_views(result@) == index_substituted_links(all.take(i as int), v, value),
            links_retyped_as(result@, links@.take(i as int), v, value),
        decreases links.len() - i,
    {
        proof {
            assert(all.take(i + 1).drop_last() =~= all.take(i as int));
            assert(links@.take(i + 1).drop_last() =~= links@.take(i as int));
            assert(decreases_to!(links@ => links@[i as int]));
        }
        let ghost before = result@;
        let (op, expression) = &links[i];
        let substituted = substitute_index(expression, variable, value);
        result.push((*op, substituted));
        proof {
            assert(result@.drop_last() =~= before);
            assert(result@.last() == (*op, substituted));
            assert(all.take(i + 1).last() == all[i as int]);
            assert(links@.take(i + 1).last() == links@[i as int]);
            assert(comparison_views(result@) == comparison_views(before).push((*op, substituted@)));
            assert(links_retyped_as(result@, links@.take(i + 1), v, value));
        }
        i = i + 1;
    }
    proof {
        assert(all.take(links.len() as int) =~= all);
        assert(links@.take(links.len() as int) =~= links@);
    }
    result
}

/// `substitute_index` over the trees of a list of logic links.
fn substitute_index_logic(links: &Vec<(Logic, Expr<TypedMetadata>)>, variable: &Variable, value: u64) -> (result: Vec<
    (Logic, Expr<TypedMetadata>),
>)
    requires
        links_fit(links@),
    ensures
        logic_views(result@) == index_substituted_links(logic_views(links@), variable.view_variable(), value),
        links_retyped_as(result@, links@, variable.view_variable(), value),
    decreases links@, 0nat,
{
    let ghost v = variable.view_variable();
    let ghost all = logic_views(links@);
    proof {
        lemma_logic_views(links@);
        lemma_links_fit_prefix(links@);
    }
    let mut result: Vec<(Logic, Expr<TypedMetadata>)> = Vec::new();
    let mut i: usize = 0;
    while i < links.len()
        invariant
            i <= links.len(),
            v == variable.view_variable(),
            all == logic_views(links@),
            all.len() == links.len(),
            forall|j: int| 0 <= j < links.len() ==> #[trigger] all[j] == (links@[j].0, links@[j].1@),
            forall|j: int| 0 <= j < links.len() ==> annotations_fit(#[trigger] links@[j].1),
            logic_views(result@) == index_substituted_links(all.take(i as int), v, value),
            links_retyped_as(result@, links@.take(i as int), v, value),
        decreases links.len() - i,
    {
        proof {
            assert(all.take(i + 1).drop_last() =~= all.take(i as int));
            assert(links@.take(i + 1).drop_last() =~= links@.take(i as int));
            assert(decreases_to!(links@ => links@[i as int]));
        }
        let ghost before = result@;
        let (op, expression) = &links[i];
        let substituted = substitute_index(expression, variable, value);
        result.push((*op, substituted));
        proof {
            assert(result@.drop_last() =~= before);
            assert(result@.last() == (*op, substituted));
            assert(all.take(i + 1).last() == all[i as int]);
            assert(links@.take(i + 1).last() == links@[i as int]);
            assert(logic_views(result@) == logic_views(before).push((*op, substituted@)));
            assert(links_retyped_as(result@, links@.take(i + 1), v, value));
        }
        i = i + 1;
    }
    proof {
        assert(all.take(links.len() as int) =~= all);
        assert(links@.take(links.len() as int) =~= links@);
    }
    result
}

/// Every member of a list whose types fit has types that fit.
proof fn lemma_seq_fits_prefix(s: Seq<Expr<TypedMetadata>>)
    requires
        seq_fits(s),
    ensures
        forall|j: int| 0 <= j < s.len() ==> annotations_fit(#[trigger] s[j]),
    decreases s.len(),
{
    if s.len() > 0 {
        lemma_seq_fits_prefix(s.drop_last());
        assert forall|j: int| 0 <= j < s.len() implies annotations_fit(#[trigger] s[j]) by {
            if j < s.len() - 1 {
                assert(s.drop_last()[j] == s[j]);
            }
        }
    }
}

/// The link form of `lemma_seq_fits_prefix`.
proof fn lemma_links_fit_prefix<O>(s: Seq<(O, Expr<TypedMetadata>)>)
    requires
        links_fit(s),
    ensures
        forall|j: int| 0 <= j < s.len() ==> annotations_fit(#[trigger] s[j].1),
    decreases s.len(),
{
    if s.len() > 0 {
        lemma_links_fit_prefix(s.drop_last());
        assert forall|j: int| 0 <= j < s.len() implies annotations_fit(#[trigger] s[j].1) by {
            if j < s.len() - 1 {
                assert(s.drop_last()[j] == s[j]);
            }
        }
    }
}

// ---------------------------------------------------------------------------
// The core syntax that remains after elaboration
// ---------------------------------------------------------------------------

/// Why a node is not core syntax.
pub enum CoreFailure {
    Unsupported(Seq<char>),
    InvalidOperands(Seq<char>),
}

/// The first of two findings.
pub open spec fn first_of(a: Option<CoreFailure>, b: Option<CoreFailure>) -> Option<CoreFailure> {
    if a is Some { a } else { b }
}

pub open spec fn unsupported(message: Seq<char>) -> Option<CoreFailure> {
    Some(CoreFailure::Unsupported(message))
}

/// A recorded type that no scalar solver value has.
pub open spec fn nonscalar(t: Option<TypeView>) -> bool {
    t matches Some(ty) && (ty is Matrix || ty is Sequence)
}

/// A recorded type that a flat matrix cell cannot have.
pub open spec fn noncell(t: Option<TypeView>) -> bool {
    t matches Some(ty) && (ty is Matrix || ty is Sequence || ty is Bool)
}

/// What is wrong with a node itself, its subtrees aside.
pub open spec fn own_failure(e: Expr<TypedMetadata>) -> Option<CoreFailure> {
    let recorded = annotation(e);
    if recorded matches Some(t) && has_unbound_type(t, 0) {
        unsupported("unbound natural type index remains after concrete elaboration"@)
    } else {
        match e.node().raw {
            RawExpr::SetComprehension { .. } => unsupported("set values must be eliminated before Z3 lowering"@),
            RawExpr::Hole => unsupported("holes are not supported by to_z3"@),
            RawExpr::Ellipsis => unsupported("ellipses must be eliminated before Z3 lowering"@),
            RawExpr::ImplicitDimension(_) | RawExpr::BoundNatural(_) | RawExpr::IdentityMatrix { .. }
            | RawExpr::StandardBasis { .. } | RawExpr::ZeroMatrix { .. } | RawExpr::Seqop(_, _, _)
            | RawExpr::Triop(_, _, _, _) => unsupported("expression remains after concrete elaboration"@),
            RawExpr::Type(_) => unsupported("type expressions are not supported by to_z3"@),
            RawExpr::Monop(op, _) => if op != Monop::Neg {
                unsupported("unary operator remains after concrete elaboration"@)
            } else {
                None
            },
            RawExpr::Binop(op, _, _) => if op != Binop::Div {
                unsupported("binary operator remains after concrete elaboration"@)
            } else {
                None
            },
            RawExpr::Finop(op, _) => if !(op == Finop::Plus || op == Finop::Times || op == Finop::And || op
                == Finop::Or || op == Finop::SeqLiteral) {
                unsupported("finite operator remains after concrete elaboration"@)
            } else {
                None
            },
            RawExpr::Variable(_) => if nonscalar(recorded) {
                unsupported("non-scalar variable remains after concrete elaboration"@)
            } else {
                None
            },
            RawExpr::Matrix(m) => if exists|i: int| 0 <= i < m.elements@.len() && noncell(annotation(#[trigger] m.elements@[i])) {
                Some(CoreFailure::InvalidOperands("flat matrix cells must be numeric scalars"@))
            } else {
                None
            },
            RawExpr::LogicChain(c) => if chain_lowerable(logic_views(c.assertions@)) {
                unsupported("logic chain remains after preprocessing"@)
            } else {
                None
            },
            _ => None,
        }
    }
}

/// The first failure of the tree, subtrees before the node that holds them,
/// in order.
pub open spec fn core_failure(e: Expr<TypedMetadata>) -> Option<CoreFailure>
    decreases e, 1nat,
{
    first_of(children_failure(e.node().raw), own_failure(e))
}

pub open spec fn children_failure(raw: RawExpr<TypedMetadata>) -> Option<CoreFailure>
    decreases raw, 0nat,
{
    match raw {
        RawExpr::StandardBasis { index, .. } => core_failure(index),
        RawExpr::Type(t) => type_failure(t),
        RawExpr::Matrix(m) => seq_failure(m.elements@),
        RawExpr::Monop(_, x) => core_failure(x),
        RawExpr::Binop(_, x, y) => first_of(core_failure(x), core_failure(y)),
        RawExpr::Triop(_, x, y, z) => first_of(core_failure(x), first_of(core_failure(y), core_failure(z))),
        RawExpr::Finop(_, xs) => seq_failure(xs@),
        RawExpr::CmpChain(c) => first_of(core_failure(c.start), links_failure(c.assertions@)),
        RawExpr::LogicChain(c) => first_of(core_failure(c.start), links_failure(c.assertions@)),
        RawExpr::Seqop(_, range, body) => first_of(
            core_failure(range.from),
            first_of(core_failure(range.to), core_failure(body)),
        ),
        RawExpr::SetComprehension { domain, predicate, .. } => first_of(type_failure(domain), core_failure(predicate)),
        _ => None,
    }
}

pub open spec fn type_failure(t: TypeExpr<TypedMetadata>) -> Option<CoreFailure>
    decreases t, 0nat,
{
    match t {
        TypeExpr::Matrix(x, y) => first_of(core_failure(x), core_failure(y)),
        TypeExpr::Sequence(x, y) => first_of(core_failure(x), core_failure(y)),
        TypeExpr::SetOf(inner) => type_failure(*inner),
        _ => None,
    }
}

pub open spec fn seq_failure(s: Seq<Expr<TypedMetadata>>) -> Option<CoreFailure>
    decreases s, 1nat,
{
    if s.len() == 0 {
        None
    } else {
        first_of(seq_failure(s.drop_last()), core_failure(s.last()))
    }
}

pub open spec fn links_failure<O>(s: Seq<(O, Expr<TypedMetadata>)>) -> Option<CoreFailure>
    decreases s, 1nat,
{
    if s.len() == 0 {
        None
    } else {
        first_of(links_failure(s.drop_last()), core_failure(s.last().1))
    }
}

/// `error` is the report of `failure`.
pub open spec fn reports(error: Option<ElaborationError>, failure: Option<CoreFailure>) -> bool {
    match error {
        None => failure is None,
        Some(ElaborationError::Unsupported(m)) => failure == Some(CoreFailure::Unsupported(m@)),
        Some(ElaborationError::InvalidOperands(m)) => failure == Some(CoreFailure::InvalidOperands(m@)),
        _ => false,
    }
}

/// Finds the first node of the forest that is not core syntax.
struct CoreValidator {
    error: Option<ElaborationError>,
}

impl CoreValidator {
    /// Visits the tree, subtrees first, unless a failure was already found;
    /// the first failure is kept.
    fn visit_expr(&mut self, node: &Expr<TypedMetadata>)
        requires
            annotations_fit(*node),
        ensures
            old(self).error is Some ==> final(self).error == old(self).error,
            old(self).error is None ==> reports(final(self).error, core_failure(*node)),
    {
        if self.error.is_some() {
            return;
        }
        self.error = core_violation(node);
    }
}

/// The report of the first failure of the tree, if any.
fn core_violation(node: &Expr<TypedMetadata>) -> (found: Option<ElaborationError>)
    requires
        annotations_fit(*node),
    ensures
        reports(found, core_failure(*node)),
    decreases *node, 1nat,
{
    let inner = children_violation(node.raw());
    if inner.is_some() {
        return inner;
    }
    own_violation(node)
}

/// The report of the first failure among the subtrees of a node.
fn children_violation(raw: &RawExpr<TypedMetadata>) -> (found: Option<ElaborationError>)
    requires
        children_fit(*raw),
    ensures
        reports(found, children_failure(*raw)),
    decreases *raw, 0nat,
{
    match raw {
        RawExpr::StandardBasis { index, .. } => core_violation(index),
        RawExpr::Type(t) => type_violation(t),
        RawExpr::Matrix(m) => list_violation(&m.elements),
        RawExpr::Monop(_, x) => core_violation(x),
        RawExpr::Binop(_, x, y) => {
            let first = core_violation(x);
            if first.is_some() { first } else { core_violation(y) }
        },
        RawExpr::Triop(_, x, y, z) => {
            let first = core_violation(x);
            if first.is_some() {
                return first;
            }
            let second = core_violation(y);
            if second.is_some() { second } else { core_violation(z) }
        },
        RawExpr::Finop(_, xs) => list_violation(xs),
        RawExpr::CmpChain(c) => {
            let first = core_violation(&c.start);
            if first.is_some() { first } else { comparisons_violation(&c.assertions) }
        },
        RawExpr::LogicChain(c) => {
            let first = core_violation(&c.start);
            if first.is_some() { first } else { logic_violation(&c.assertions) }
        },
        RawExpr::Seqop(_, range, body) => {
            let first = core_violation(&range.from);
            if first.is_some() {
                return first;
            }
            let second = core_violation(&range.to);
            if second.is_some() { second } else { core_violation(body) }
        },
        RawExpr::SetComprehension { domain, predicate, .. } => {
            let first = type_violation(domain);
            if first.is_some() { first } else { core_violation(predicate) }
        },
        _ => None,
    }
}

/// `children_violation` over the dimension expressions of a type.
fn type_violation(t: &TypeExpr<TypedMetadata>) -> (found: Option<ElaborationError>)
    requires
        type_fits(*t),
    ensures
        reports(found, type_failure(*t)),
    decreases *t, 0nat,
{
    match t {
        TypeExpr::Matrix(x, y) => {
            let first = core_violation(x);
            if first.is_some() { first } else { core_violation(y) }
        },
        TypeExpr::Sequence(x, y) => {
            let first = core_violation(x);
            if first.is_some() { first } else { core_violation(y) }
        },
        TypeExpr::SetOf(inner) => {
            let inner: &TypeExpr<TypedMetadata> = inner;
            type_violation(inner)
        },
        _ => None,
    }
}

/// The first violation in a list of trees.
fn list_violation(xs: &Vec<Expr<TypedMetadata>>) -> (found: Option<ElaborationError>)
    requires
        seq_fits(xs@),
    ensures
        reports(found, seq_failure(xs@)),
    decreases xs@, 0nat,
{
    proof {
        lemma_seq_fits_prefix(xs@);
    }
    let mut i: usize = 0;
    while i < xs.len()
        invariant
            i <= xs.len(),
            forall|j: int| 0 <= j < xs.len() ==> annotations_fit(#[trigger] xs@[j]),
            seq_failure(xs@.take(i as int)) is None,
        decreases xs.len() - i,
    {
        proof {
            assert(xs@.take(i + 1).drop_last() =~= xs@.take(i as int));
            assert(decreases_to!(xs@ => xs@[i as int]));
        }
        let found = core_violation(&xs[i]);
        if found.is_some() {
            proof {
                lemma_seq_failure_stops(xs@, i as int);
            }
            return found;
        }
        i = i + 1;
    }
    proof {
        assert(xs@.take(xs.len() as int) =~= xs@);
    }
    None
}

/// The first violation in the trees of a list of comparison links.
fn comparisons_violation(xs: &Vec<(Cmp, Expr<TypedMetadata>)>) -> (found: Option<ElaborationError>)
    requires
        links_fit(xs@),
    ensures
        reports(found, links_failure(xs@)),
    decreases xs@, 0nat,
{
    proof {
        lemma_links_fit_prefix(xs@);
    }
    let mut i: usize = 0;
    while i < xs.len()
        invariant
            i <= xs.len(),
            forall|j: int| 0 <= j < xs.len() ==> annotations_fit(#[trigger] xs@[j].1),
            links_failure(xs@.take(i as int)) is None,
        decreases xs.len() - i,
    {
        proof {
            assert(xs@.take(i + 1).drop_last() =~= xs@.take(i as int));
            assert(decreases_to!(xs@ => xs@[i as int]));
        }
        let found = core_violation(&xs[i].1);
        if found.is_some() {
            proof {
                lemma_links_failure_stops(xs@, i as int);
            }
            return found;
        }
        i = i + 1;
    }
    proof {
        assert(xs@.take(xs.len() as int) =~= xs@);
    }
    None
}

/// The first violation in the trees of a list of logic links.
fn logic_violation(xs: &Vec<(Logic, Expr<TypedMetadata>)>) -> (found: Option<ElaborationError>)
    requires
        links_fit(xs@),
    ensures
        reports(found, links_failure(xs@)),
    decreases xs@, 0nat,
{
    proof {
        lemma_links_fit_prefix(xs@);
    }
    let mut i: usize = 0;
    while i < xs.len()
        invariant
            i <= xs.len(),
            forall|j: int| 0 <= j < xs.len() ==> annotations_fit(#[trigger] xs@[j].1),
            links_failure(xs@.take(i as int)) is None,
        decreases xs.len() - i,
    {
        proof {
            assert(xs@.take(i + 1).drop_last() =~= xs@.take(i as int));
            assert(decreases_to!(xs@ => xs@[i as int]));
        }
        let found = core_violation(&xs[i].1);
        if found.is_some() {
            proof {
                lemma_links_failure_stops(xs@, i as int);
            }
            return found;
        }
        i = i + 1;
    }
    proof {
        assert(xs@.take(xs.len() as int) =~= xs@);
    }
    None
}

/// A list whose prefix before `i` has no failure, and whose member `i`
/// fails, fails as that member does.
proof fn lemma_seq_failure_stops(s: Seq<Expr<TypedMetadata>>, i: int)
    requires
        0 <= i < s.len(),
        seq_failure(s.take(i)) is None,
        core_failure(s[i]) is Some,
    ensures
        seq_failure(s) == core_failure(s[i]),
    decreases s.len(),
{
    if i == s.len() - 1 {
        assert(s.drop_last() =~= s.take(i));
    } else {
        assert(s.drop_last().take(i) =~= s.take(i));
        lemma_seq_failure_stops(s.drop_last(), i);
    }
}

/// The link form of `lemma_seq_failure_stops`.
proof fn lemma_links_failure_stops<O>(s: Seq<(O, Expr<TypedMetadata>)>, i: int)
    requires
        0 <= i < s.len(),
        links_failure(s.take(i)) is None,
        core_failure(s[i].1) is Some,
    ensures
        links_failure(s) == core_failure(s[i].1),
    decreases s.len(),
{
    if i == s.len() - 1 {
        assert(s.drop_last() =~= s.take(i));
    } else {
        assert(s.drop_last().take(i) =~= s.take(i));
        lemma_links_failure_stops(s.drop_last(), i);
    }
}

/// The report of what is wrong with a node itself, its subtrees aside.
fn own_violation(node: &Expr<TypedMetadata>) -> (found: Option<ElaborationError>)
    requires
        annotation_fits(annotation(*node)),
    ensures
        reports(found, own_failure(*node)),
{
    let recorded = node.meta().get_type();
    if let Ok(ty) = &recorded {
        if contains_unbound_natural(ty) {
            return Some(ElaborationError::Unsupported("unbound natural type index remains after concrete elaboration"));
        }
    }
    match node.raw() {
        RawExpr::SetComprehension { .. } => Some(ElaborationError::Unsupported("set values must be eliminated before Z3 lowering")),
        RawExpr::Hole => Some(ElaborationError::Unsupported("holes are not supported by to_z3")),
        RawExpr::Ellipsis => Some(ElaborationError::Unsupported("ellipses must be eliminated before Z3 lowering")),
        RawExpr::ImplicitDimension(_) | RawExpr::BoundNatural(_) | RawExpr::IdentityMatrix { .. }
        | RawExpr::StandardBasis { .. } | RawExpr::ZeroMatrix { .. } | RawExpr::Seqop(_, _, _)
        | RawExpr::Triop(_, _, _, _) => Some(ElaborationError::Unsupported("expression remains after concrete elaboration")),
        RawExpr::Type(_) => Some(ElaborationError::Unsupported("type expressions are not supported by to_z3")),
        RawExpr::Monop(op, _) => if *op != Monop::Neg {
            Some(ElaborationError::Unsupported("unary operator remains after concrete elaboration"))
        } else {
            None
        },
        RawExpr::Binop(op, _, _) => if *op != Binop::Div {
            Some(ElaborationError::Unsupported("binary operator remains after concrete elaboration"))
        } else {
            None
        },
        RawExpr::Finop(op, _) => match op {
            Finop::Plus | Finop::Times | Finop::And | Finop::Or | Finop::SeqLiteral => None,
            _ => Some(ElaborationError::Unsupported("finite operator remains after concrete elaboration")),
        },
        RawExpr::Variable(_) => match recorded {
            Ok(TypeExpr::Matrix(_, _)) | Ok(TypeExpr::Sequence(_, _)) => Some(
                ElaborationError::Unsupported("non-scalar variable remains after concrete elaboration"),
            ),
            _ => None,
        },
        RawExpr::Matrix(m) => {
            let mut i: usize = 0;
            while i < m.elements.len()
                invariant
                    i <= m.elements.len(),
                    node.node().raw == RawExpr::Matrix(*m),
                    !(annotation(*node) matches Some(t) && has_unbound_type(t, 0)),
                    forall|j: int| 0 <= j < i ==> !noncell(annotation(#[trigger] m.elements@[j])),
                decreases m.elements.len() - i,
            {
                let cell = m.elements[i].meta().get_type();
                match cell {
                    Ok(TypeExpr::Matrix(_, _)) | Ok(TypeExpr::Sequence(_, _)) | Ok(TypeExpr::Bool) => {
                        proof {
                            assert(noncell(annotation(m.elements@[i as int])));
                        }
                        return Some(ElaborationError::InvalidOperands("flat matrix cells must be numeric scalars"));
                    },
                    _ => {},
                }
                i = i + 1;
            }
            None
        },
        RawExpr::LogicChain(c) => {
            proof {
                lemma_logic_views(c.assertions@);
            }
            if c.assertions.len() == 0 || (c.assertions.len() == 1 && c.assertions[0].0 == Logic::Imp) {
                None
            } else {
                Some(ElaborationError::Unsupported("logic chain remains after preprocessing"))
            }
        },
        _ => None,
    }
}

/// The trees that a side condition holds: its defining assertions, then
/// the assertions that check its existence.
pub open spec fn condition_trees(c: SideCondition<TypedMetadata>) -> Seq<Expr<TypedMetadata>> {
    c.defining_assertions@ + match c.existence {
        Existence::Checkable(assertions) => assertions@,
        _ => Seq::empty(),
    }
}

/// The trees of a list of side conditions, in order.
pub open spec fn conditions_trees(cs: Seq<SideCondition<TypedMetadata>>) -> Seq<Expr<TypedMetadata>>
    decreases cs.len(),
{
    if cs.len() == 0 {
        Seq::empty()
    } else {
        conditions_trees(cs.drop_last()) + condition_trees(cs.last())
    }
}

/// The first failure of a list of trees.
pub open spec fn forest_failure(trees: Seq<Expr<TypedMetadata>>) -> Option<CoreFailure>
    decreases trees.len(),
{
    if trees.len() == 0 {
        None
    } else {
        first_of(forest_failure(trees.drop_last()), core_failure(trees.last()))
    }
}

/// Whether every type recorded in the assertions of a side condition fits.
pub open spec fn condition_fits(c: SideCondition<TypedMetadata>) -> bool {
    forall|k: int| 0 <= k < condition_trees(c).len() ==> annotations_fit(#[trigger] condition_trees(c)[k])
}

/// Checks that the expression and the assertions of its side conditions
/// hold only core syntax: no set value, hole, ellipsis, sequence operation,
/// context-dependent constant or bound natural, no operator that concrete
/// elaboration removes, no non-scalar variable or matrix cell, no logic
/// chain other than a single implication, and no recorded type that
/// mentions an unbound sequence position. The first failure, in order, is
/// reported.
pub fn validate_forest(expression: &Expr<TypedMetadata>, side_conditions: &Vec<SideCondition<TypedMetadata>>) -> (result: Result<(), ElaborationError>)
    requires
        annotations_fit(*expression),
        forall|i: int| 0 <= i < side_conditions.len() ==> condition_fits(#[trigger] side_conditions@[i]),
    ensures
        reports(
            match result {
                Ok(()) => None,
                Err(error) => Some(error),
            },
            forest_failure(seq![*expression] + conditions_trees(side_conditions@)),
        ),
{
    let mut validator = CoreValidator { error: None };
    validator.visit_expr(expression);
    let ghost mut visited: Seq<Expr<TypedMetadata>> = seq![*expression];
    proof {
        assert(visited.drop_last() =~= Seq::<Expr<TypedMetadata>>::empty());
        assert(side_conditions@.take(0) =~= Seq::<SideCondition<TypedMetadata>>::empty());
        assert(visited =~= seq![*expression] + conditions_trees(side_conditions@.take(0)));
        assert(forest_failure(visited.drop_last()) is None);
        assert(forest_failure(visited) == core_failure(*expression));
    }
    let mut i: usize = 0;
    while i < side_conditions.len()
        invariant
            i <= side_conditions.len(),
            forall|k: int| 0 <= k < side_conditions.len() ==> condition_fits(#[trigger] side_conditions@[k]),
            visited == seq![*expression] + conditions_trees(side_conditions@.take(i as int)),
            reports(validator.error, forest_failure(visited)),
        decreases side_conditions.len() - i,
    {
        proof {
            lemma_conditions_trees_prefix(side_conditions@, i as int);
        }
        let condition = &side_conditions[i];
        let ghost start = visited;
        let ghost trees = condition_trees(*condition);
        proof {
            assert(condition_fits(*condition));
            assert(start + condition.defining_assertions@.take(0) =~= start);
        }
        let mut j: usize = 0;
        while j < condition.defining_assertions.len()
            invariant
                j <= condition.defining_assertions.len(),
                trees == condition_trees(*condition),
                forall|k: int| 0 <= k < trees.len() ==> annotations_fit(#[trigger] trees[k]),
                visited == start + condition.defining_assertions@.take(j as int),
                reports(validator.error, forest_failure(visited)),
            decreases condition.defining_assertions.len() - j,
        {
            proof {
                assert(trees[j as int] == condition.defining_assertions@[j as int]);
                visited = visited.push(condition.defining_assertions@[j as int]);
                assert(visited.drop_last() =~= start + condition.defining_assertions@.take(j as int));
                assert(visited =~= start + condition.defining_assertions@.take(j + 1));
            }
            validator.visit_expr(&condition.defining_assertions[j]);
            j = j + 1;
        }
        proof {
            assert(condition.defining_assertions@.take(j as int) =~= condition.defining_assertions@);
        }
        match &condition.existence {
            Existence::Checkable(assertions) => {
                let ghost defined = visited;
                let ghost offset = condition.defining_assertions.len();
                proof {
                    assert(defined + assertions@.take(0) =~= defined);
                }
                let mut j: usize = 0;
                while j < assertions.len()
                    invariant
                        j <= assertions.len(),
                        trees == condition.defining_assertions@ + assertions@,
                        offset == condition.defining_assertions.len(),
                        forall|k: int| 0 <= k < trees.len() ==> annotations_fit(#[trigger] trees[k]),
                        visited == defined + assertions@.take(j as int),
                        reports(validator.error, forest_failure(visited)),
                    decreases assertions.len() - j,
                {
                    proof {
                        assert(trees[offset + j] == assertions@[j as int]);
                        visited = visited.push(assertions@[j as int]);
                        assert(visited.drop_last() =~= defined + assertions@.take(j as int));
                        assert(visited =~= defined + assertions@.take(j + 1));
                    }
                    validator.visit_expr(&assertions[j]);
                    j = j + 1;
                }
                proof {
                    assert(assertions@.take(j as int) =~= assertions@);
                    assert(visited =~= start + trees);
                }
            },
            _ => {
                proof {
                    assert(trees =~= condition.defining_assertions@);
                }
            },
        }
        proof {
            assert(visited =~= seq![*expression] + conditions_trees(side_conditions@.take(i + 1)));
        }
        i = i + 1;
    }
    proof {
        assert(side_conditions@.take(i as int) =~= side_conditions@);
    }
    match validator.error {
        None => Ok(()),
        Some(error) => Err(error),
    }
}

/// The trees of the first `i + 1` side conditions extend those of the first
/// `i` by the trees of condition `i`.
proof fn lemma_conditions_trees_prefix(cs: Seq<SideCondition<TypedMetadata>>, i: int)
    requires
        0 <= i < cs.len(),
    ensures
        conditions_trees(cs.take(i + 1)) == conditions_trees(cs.take(i)) + condition_trees(cs[i]),
{
    assert(cs.take(i + 1).drop_last() =~= cs.take(i));
}

} // verus!
