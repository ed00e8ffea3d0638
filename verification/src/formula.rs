//! Formulas as logical objects: quantifiers, and the substitution of an
//! expression for a free variable.
use vstd::prelude::*;

use crate::deep_clone::deep_clone;
use crate::expression_utils::{distinct_variables, lemma_variable_set, variable_set};
use crate::view::{
    comparison_views, lemma_comparison_views, lemma_logic_views, lemma_views, logic_views, type_view, views,
    ExprView, TypeView, VariableView,
};
use crate::{Cmp, CmpChain, Expr, Finop, Logic, LogicChain, Matrix, Range, RawExpr, TypeExpr, Variable};

verus! {

/// Whether the node is a quantifier.
pub fn is_quantifier<Metadata>(expression: &Expr<Metadata>) -> (quantifier: bool)
    ensures
        quantifier == (expression@ matches ExprView::Finop(op, _) && (op == Finop::Forall || op == Finop::Exists)),
{
    match expression.raw() {
        RawExpr::Finop(Finop::Forall, _) | RawExpr::Finop(Finop::Exists, _) => true,
        _ => false,
    }
}

/// Whether a quantifier occurs anywhere in the tree.
pub open spec fn has_quantifier(e: ExprView) -> bool
    decreases e, 0nat,
{
    match e {
        ExprView::Finop(op, operands) => op == Finop::Forall || op == Finop::Exists || has_quantifier_seq(operands),
        ExprView::StandardBasis(index, _) => has_quantifier(*index),
        ExprView::Type(t) => has_quantifier_type(t),
        ExprView::Matrix(_, _, elements) => has_quantifier_seq(elements),
        ExprView::Monop(_, x) => has_quantifier(*x),
        ExprView::Binop(_, x, y) => has_quantifier(*x) || has_quantifier(*y),
        ExprView::Triop(_, x, y, z) => has_quantifier(*x) || has_quantifier(*y) || has_quantifier(*z),
        ExprView::CmpChain(start, links) => has_quantifier(*start) || has_quantifier_links(links),
        ExprView::LogicChain(start, links) => has_quantifier(*start) || has_quantifier_links(links),
        ExprView::Seqop(_, _, from, to, body) => has_quantifier(*from) || has_quantifier(*to) || has_quantifier(*body),
        ExprView::SetComprehension(_, domain, predicate) => has_quantifier_type(domain) || has_quantifier(*predicate),
        _ => false,
    }
}

/// `has_quantifier` over the dimension expressions of a type.
pub open spec fn has_quantifier_type(t: TypeView) -> bool
    decreases t, 0nat,
{
    match t {
        TypeView::Matrix(x, y) => has_quantifier(*x) || has_quantifier(*y),
        TypeView::Sequence(x, y) => has_quantifier(*x) || has_quantifier(*y),
        TypeView::SetOf(inner) => has_quantifier_type(*inner),
        _ => false,
    }
}

/// `has_quantifier` over a list of trees.
pub open spec fn has_quantifier_seq(s: Seq<ExprView>) -> bool
    decreases s, 1nat,
{
    s.len() > 0 && (has_quantifier_seq(s.drop_last()) || has_quantifier(s.last()))
}

/// `has_quantifier` over the trees of a list of links.
pub open spec fn has_quantifier_links<O>(s: Seq<(O, ExprView)>) -> bool
    decreases s, 1nat,
{
    s.len() > 0 && (has_quantifier_links(s.drop_last()) || has_quantifier(s.last().1))
}

/// Whether a quantifier occurs anywhere in the expression.
pub fn contains_quantifier<Metadata>(expression: &Expr<Metadata>) -> (found: bool)
    ensures
        found == has_quantifier(expression@),
    decreases *expression, 0nat,
{
    match expression.raw() {
        RawExpr::Finop(op, operands) => match op {
            Finop::Forall | Finop::Exists => true,
            _ => quantifier_in_list(operands),
        },
        RawExpr::StandardBasis { index, .. } => contains_quantifier(index),
        RawExpr::Type(t) => quantifier_in_type(t),
        RawExpr::Matrix(m) => quantifier_in_list(&m.elements),
        RawExpr::Monop(_, x) => contains_quantifier(x),
        RawExpr::Binop(_, x, y) => contains_quantifier(x) || contains_quantifier(y),
        RawExpr::Triop(_, x, y, z) => contains_quantifier(x) || contains_quantifier(y) || contains_quantifier(z),
        RawExpr::CmpChain(c) => contains_quantifier(&c.start) || quantifier_in_comparisons(&c.assertions),
        RawExpr::LogicChain(c) => contains_quantifier(&c.start) || quantifier_in_logic(&c.assertions),
        RawExpr::Seqop(_, range, body) => contains_quantifier(&range.from) || contains_quantifier(&range.to)
            || contains_quantifier(body),
        RawExpr::SetComprehension { domain, predicate, .. } => quantifier_in_type(domain) || contains_quantifier(
            predicate,
        ),
        _ => false,
    }
}

/// `contains_quantifier` over the dimension expressions of a type.
fn quantifier_in_type<Metadata>(t: &TypeExpr<Metadata>) -> (found: bool)
    ensures
        found == has_quantifier_type(type_view(*t)),
    decreases *t, 0nat,
{
    match t {
        TypeExpr::Matrix(x, y) => contains_quantifier(x) || contains_quantifier(y),
        TypeExpr::Sequence(x, y) => contains_quantifier(x) || contains_quantifier(y),
        TypeExpr::SetOf(inner) => {
            let inner: &TypeExpr<Metadata> = inner;
            quantifier_in_type(inner)
        },
        _ => false,
    }
}

/// `contains_quantifier` over a list of trees.
fn quantifier_in_list<Metadata>(xs: &Vec<Expr<Metadata>>) -> (found: bool)
    ensures
        found == has_quantifier_seq(views(xs@)),
    decreases xs@, 0nat,
{
    let ghost all = views(xs@);
    proof {
        lemma_views(xs@);
    }
    let mut i: usize = 0;
    while i < xs.len()
        invariant
            i <= xs.len(),
            all == views(xs@),
            all.len() == xs.len(),
            forall|j: int| 0 <= j < xs.len() ==> #[trigger] all[j] == xs@[j]@,
            !has_quantifier_seq(all.take(i as int)),
        decreases xs.len() - i,
    {
        proof {
            assert(all.take(i + 1).drop_last() =~= all.take(i as int));
            assert(decreases_to!(xs@ => xs@[i as int]));
        }
        if contains_quantifier(&xs[i]) {
            proof {
                lemma_quantifier_seq_member(all, i as int);
            }
            return true;
        }
        i = i + 1;
    }
    proof {
        assert(all.take(xs.len() as int) =~= all);
    }
    false
}

/// `contains_quantifier` over the trees of a list of comparison links.
fn quantifier_in_comparisons<Metadata>(xs: &Vec<(Cmp, Expr<Metadata>)>) -> (found: bool)
    ensures
        found == has_quantifier_links(comparison_views(xs@)),
    decreases xs@, 0nat,
{
    let ghost all = comparison_views(xs@);
    proof {
        lemma_comparison_views(xs@);
    }
    let mut i: usize = 0;
    while i < xs.len()
        invariant
            i <= xs.len(),
            all == comparison_views(xs@),
            all.len() == xs.len(),
            forall|j: int| 0 <= j < xs.len() ==> #[trigger] all[j] == (xs@[j].0, xs@[j].1@),
            !has_quantifier_links(all.take(i as int)),
        decreases xs.len() - i,
    {
        proof {
            assert(all.take(i + 1).drop_last() =~= all.take(i as int));
            assert(decreases_to!(xs@ => xs@[i as int]));
        }
        if contains_quantifier(&xs[i].1) {
            proof {
                lemma_quantifier_links_member(all, i as int);
            }
            return true;
        }
        i = i + 1;
    }
    proof {
        assert(all.take(xs.len() as int) =~= all);
    }
    false
}

/// `contains_quantifier` over the trees of a list of logic links.
fn quantifier_in_logic<Metadata>(xs: &Vec<(Logic, Expr<Metadata>)>) -> (found: bool)
    ensures
        found == has_quantifier_links(logic_views(xs@)),
    decreases xs@, 0nat,
{
    let ghost all = logic_views(xs@);
    proof {
        lemma_logic_views(xs@);
    }
    let mut i: usize = 0;
    while i < xs.len()
        invariant
            i <= xs.len(),
            all == logic_views(xs@),
            all.len() == xs.len(),
            forall|j: int| 0 <= j < xs.len() ==> #[trigger] all[j] == (xs@[j].0, xs@[j].1@),
            !has_quantifier_links(all.take(i as int)),
        decreases xs.len() - i,
    {
        proof {
            assert(all.take(i + 1).drop_last() =~= all.take(i as int));
            assert(decreases_to!(xs@ => xs@[i as int]));
        }
        if contains_quantifier(&xs[i].1) {
            proof {
                lemma_quantifier_links_member(all, i as int);
            }
            return true;
        }
        i = i + 1;
    }
    proof {
        assert(all.take(xs.len() as int) =~= all);
    }
    false
}

/// A list holds a quantifier when one of its members does.
proof fn lemma_quantifier_seq_member(s: Seq<ExprView>, i: int)
    requires
        0 <= i < s.len(),
        has_quantifier(s[i]),
    ensures
        has_quantifier_seq(s),
    decreases s.len(),
{
    if i < s.len() - 1 {
        assert(s.drop_last()[i] == s[i]);
        lemma_quantifier_seq_member(s.drop_last(), i);
    }
}

/// The link form of `lemma_quantifier_seq_member`.
proof fn lemma_quantifier_links_member<O>(s: Seq<(O, ExprView)>, i: int)
    requires
        0 <= i < s.len(),
        has_quantifier(s[i].1),
    ensures
        has_quantifier_links(s),
    decreases s.len(),
{
    if i < s.len() - 1 {
        assert(s.drop_last()[i] == s[i]);
        lemma_quantifier_links_member(s.drop_last(), i);
    }
}

// ---------------------------------------------------------------------------
// Substitution of an expression for a free variable
// ---------------------------------------------------------------------------

/// The operands that an operand contributes to an operation `op` once
/// nested operations of the same kind are flattened: its own operands if it
/// is itself an `op`, and itself otherwise.
pub open spec fn spliced(op: Finop, x: ExprView) -> Seq<ExprView> {
    match x {
        ExprView::Finop(inner, nested) => if inner == op { nested } else { seq![x] },
        _ => seq![x],
    }
}

/// The operands of an operation `op`, with operands that are themselves
/// `op` operations replaced by their operands.
pub open spec fn flattened(op: Finop, s: Seq<ExprView>) -> Seq<ExprView>
    decreases s.len(),
{
    if s.len() == 0 {
        s
    } else {
        flattened(op, s.drop_last()) + spliced(op, s.last())
    }
}

/// The tree with every free occurrence of `v` replaced by `r`: the scope of
/// a sequence index named `v` is left as it is, and every operation is
/// flattened with the operations of the same kind among its operands once
/// they are substituted.
pub open spec fn free_substituted(e: ExprView, v: VariableView, r: ExprView) -> ExprView
    decreases e, 0nat,
{
    match e {
        ExprView::Variable(x) => if x == v { r } else { e },
        ExprView::StandardBasis(index, d) => ExprView::StandardBasis(Box::new(free_substituted(*index, v, r)), d),
        ExprView::Type(t) => ExprView::Type(free_substituted_type(t, v, r)),
        ExprView::Matrix(rows, cols, elements) => ExprView::Matrix(rows, cols, free_substituted_seq(elements, v, r)),
        ExprView::Monop(op, x) => ExprView::Monop(op, Box::new(free_substituted(*x, v, r))),
        ExprView::Binop(op, x, y) => ExprView::Binop(
            op,
            Box::new(free_substituted(*x, v, r)),
            Box::new(free_substituted(*y, v, r)),
        ),
        ExprView::Triop(op, x, y, z) => ExprView::Triop(
            op,
            Box::new(free_substituted(*x, v, r)),
            Box::new(free_substituted(*y, v, r)),
            Box::new(free_substituted(*z, v, r)),
        ),
        ExprView::Finop(op, operands) => ExprView::Finop(op, flattened(op, free_substituted_seq(operands, v, r))),
        ExprView::CmpChain(start, links) => ExprView::CmpChain(
            Box::new(free_substituted(*start, v, r)),
            free_substituted_links(links, v, r),
        ),
        ExprView::LogicChain(start, links) => ExprView::LogicChain(
            Box::new(free_substituted(*start, v, r)),
            free_substituted_links(links, v, r),
        ),
        ExprView::Seqop(op, bv, from, to, body) => ExprView::Seqop(
            op,
            bv,
            Box::new(free_substituted(*from, v, r)),
            Box::new(free_substituted(*to, v, r)),
            Box::new(if bv == v { *body } else { free_substituted(*body, v, r) }),
        ),
        ExprView::SetComprehension(bv, domain, predicate) => ExprView::SetComprehension(
            bv,
            free_substituted_type(domain, v, r),
            Box::new(free_substituted(*predicate, v, r)),
        ),
        _ => e,
    }
}

/// `free_substituted` over the dimension expressions of a type.
pub open spec fn free_substituted_type(t: TypeView, v: VariableView, r: ExprView) -> TypeView
    decreases t, 0nat,
{
    match t {
        TypeView::Matrix(x, y) => TypeView::Matrix(
            Box::new(free_substituted(*x, v, r)),
            Box::new(free_substituted(*y, v, r)),
        ),
        TypeView::Sequence(x, y) => TypeView::Sequence(
            Box::new(free_substituted(*x, v, r)),
            Box::new(free_substituted(*y, v, r)),
        ),
        TypeView::SetOf(inner) => TypeView::SetOf(Box::new(free_substituted_type(*inner, v, r))),
        _ => t,
    }
}

/// `free_substituted` over a list of trees.
pub open spec fn free_substituted_seq(s: Seq<ExprView>, v: VariableView, r: ExprView) -> Seq<ExprView>
    decreases s, 1nat,
{
    if s.len() == 0 {
        s
    } else {
        free_substituted_seq(s.drop_last(), v, r).push(free_substituted(s.last(), v, r))
    }
}

/// `free_substituted` over the trees of a list of links.
pub open spec fn free_substituted_links<O>(s: Seq<(O, ExprView)>, v: VariableView, r: ExprView) -> Seq<(O, ExprView)>
    decreases s, 1nat,
{
    if s.len() == 0 {
        s
    } else {
        free_substituted_links(s.drop_last(), v, r).push((s.last().0, free_substituted(s.last().1, v, r)))
    }
}

/// The expression with every free occurrence of `variable` replaced by a
/// copy of `replacement`; operations are flattened with the operations of
/// the same kind among their substituted operands.
pub fn substitute_free_variable(expression: &Expr<()>, variable: &Variable, replacement: &Expr<()>) -> (result: Expr<()>)
    ensures
        result@ == free_substituted(expression@, variable.view_variable(), replacement@),
    decreases *expression, 0nat,
{
    let raw = match expression.raw() {
        RawExpr::Variable(x) => {
            if x.same(variable) {
                return deep_clone(replacement);
            }
            RawExpr::Variable(x.duplicate())
        },
        RawExpr::StandardBasis { index, dimension } => RawExpr::StandardBasis {
            index: substitute_free_variable(index, variable, replacement),
            dimension: *dimension,
        },
        RawExpr::Type(ty) => RawExpr::Type(substitute_in_type(ty, variable, replacement)),
        RawExpr::Matrix(matrix) => RawExpr::Matrix(Matrix {
            rows: matrix.rows,
            cols: matrix.cols,
            elements: substitute_in_list(&matrix.elements, variable, replacement),
        }),
        RawExpr::Monop(op, x) => RawExpr::Monop(*op, substitute_free_variable(x, variable, replacement)),
        RawExpr::Binop(op, x, y) => RawExpr::Binop(
            *op,
            substitute_free_variable(x, variable, replacement),
            substitute_free_variable(y, variable, replacement),
        ),
        RawExpr::Triop(op, x, y, z) => RawExpr::Triop(
            *op,
            substitute_free_variable(x, variable, replacement),
            substitute_free_variable(y, variable, replacement),
            substitute_free_variable(z, variable, replacement),
        ),
        RawExpr::Finop(op, operands) => {
            let substituted = substitute_in_list(operands, variable, replacement);
            RawExpr::Finop(*op, flatten(*op, &substituted))
        },
        RawExpr::CmpChain(chain) => RawExpr::CmpChain(CmpChain {
            start: substitute_free_variable(&chain.start, variable, replacement),
            assertions: substitute_in_comparisons(&chain.assertions, variable, replacement),
        }),
        RawExpr::LogicChain(chain) => RawExpr::LogicChain(LogicChain {
            start: substitute_free_variable(&chain.start, variable, replacement),
            assertions: substitute_in_logic(&chain.assertions, variable, replacement),
        }),
        RawExpr::Seqop(op, range, body) => RawExpr::Seqop(
            *op,
            Range {
                index_variable: range.index_variable.duplicate(),
                from: substitute_free_variable(&range.from, variable, replacement),
                to: substitute_free_variable(&range.to, variable, replacement),
            },
            if range.index_variable.same(variable) {
                deep_clone(body)
            } else {
                substitute_free_variable(body, variable, replacement)
            },
        ),
        RawExpr::SetComprehension { variable: bound, domain, predicate } => RawExpr::SetComprehension {
            variable: bound.duplicate(),
            domain: substitute_in_type(domain, variable, replacement),
            predicate: substitute_free_variable(predicate, variable, replacement),
        },
        _ => {
            return deep_clone(expression);
        },
    };
    Expr::new(raw)
}

/// The operands of an operation `op` with the operands that are themselves
/// `op` operations spliced in.
fn flatten(op: Finop, operands: &Vec<Expr<()>>) -> (result: Vec<Expr<()>>)
    ensures
        views(result@) == flattened(op, views(operands@)),
{
    let ghost all = views(operands@);
    proof {
        lemma_views(operands@);
    }
    let mut result: Vec<Expr<()>> = Vec::new();
    let mut i: usize = 0;
    while i < operands.len()
        invariant
            i <= operands.len(),
            all == views(operands@),
            all.len() == operands.len(),
            forall|j: int| 0 <= j < operands.len() ==> #[trigger] all[j] == operands@[j]@,
            views(result@) == flattened(op, all.take(i as int)),
        decreases operands.len() - i,
    {
        let ghost done = views(result@);
        proof {
            assert(all.take(i + 1).drop_last() =~= all.take(i as int));
            assert(all.take(i + 1).last() == operands@[i as int]@);
        }
        match operands[i].raw() {
            RawExpr::Finop(inner, nested) if *inner == op => {
                proof {
                    lemma_views(nested@);
                }
                let mut k: usize = 0;
                while k < nested.len()
                    invariant
                        k <= nested.len(),
                        views(nested@).len() == nested.len(),
                        forall|j: int| 0 <= j < nested.len() ==> #[trigger] views(nested@)[j] == nested@[j]@,
                        views(result@) == done + views(nested@).take(k as int),
                    decreases nested.len() - k,
                {
                    let ghost before = result@;
                    result.push(deep_clone(&nested[k]));
                    proof {
                        assert(result@.drop_last() =~= before);
                        lemma_views(result@);
                        lemma_views(before);
                        assert(views(result@) =~= done + views(nested@).take(k + 1));
                    }
                    k = k + 1;
                }
                proof {
                    assert(views(nested@).take(k as int) =~= views(nested@));
                }
            },
            _ => {
                let ghost before = result@;
                result.push(deep_clone(&operands[i]));
                proof {
                    assert(result@.drop_last() =~= before);
                    lemma_views(result@);
                    lemma_views(before);
                    assert(views(result@) =~= done + seq![operands@[i as int]@]);
                }
            },
        }
        i = i + 1;
    }
    proof {
        assert(all.take(operands.len() as int) =~= all);
    }
    result
}

/// `substitute_free_variable` over the dimension expressions of a type.
fn substitute_in_type(ty: &TypeExpr<()>, variable: &Variable, replacement: &Expr<()>) -> (result: TypeExpr<()>)
    ensures
        type_view(result) == free_substituted_type(type_view(*ty), variable.view_variable(), replacement@),
    decreases *ty, 0nat,
{
    match ty {
        TypeExpr::Matrix(x, y) => TypeExpr::Matrix(
            substitute_free_variable(x, variable, replacement),
            substitute_free_variable(y, variable, replacement),
        ),
        TypeExpr::Sequence(x, y) => TypeExpr::Sequence(
            substitute_free_variable(x, variable, replacement),
            substitute_free_variable(y, variable, replacement),
        ),
        TypeExpr::SetOf(inner) => {
            let inner: &TypeExpr<()> = inner;
            TypeExpr::SetOf(Box::new(substitute_in_type(inner, variable, replacement)))
        },
        TypeExpr::Bool => TypeExpr::Bool,
        TypeExpr::Nat => TypeExpr::Nat,
        TypeExpr::Int => TypeExpr::Int,
        TypeExpr::Real => TypeExpr::Real,
    }
}

/// `substitute_free_variable` over a list of trees.
fn substitute_in_list(expressions: &Vec<Expr<()>>, variable: &Variable, replacement: &Expr<()>) -> (result: Vec<Expr<()>>)
    ensures
        views(result@) == free_substituted_seq(views(expressions@), variable.view_variable(), replacement@),
    decreases expressions@, 0nat,
{
    let ghost v = variable.view_variable();
    let ghost all = views(expressions@);
    proof {
        lemma_views(expressions@);
    }
    let mut result: Vec<Expr<()>> = Vec::new();
    let mut i: usize = 0;
    while i < expressions.len()
        invariant
            i <= expressions.len(),
            v == variable.view_variable(),
            all == views(expressions@),
            all.len() == expressions.len(),
            forall|j: int| 0 <= j < expressions.len() ==> #[trigger] all[j] == expressions@[j]@,
            views(result@) == free_substituted_seq(all.take(i as int), v, replacement@),
        decreases expressions.len() - i,
    {
        proof {
            assert(all.take(i + 1).drop_last() =~= all.take(i as int));
            assert(decreases_to!(expressions@ => expressions@[i as int]));
        }
        let ghost before = result@;
        result.push(substitute_free_variable(&expressions[i], variable, replacement));
        proof {
            assert(result@.drop_last() =~= before);
        }
        i = i + 1;
    }
    proof {
        assert(all.take(expressions.len() as int) =~= all);
    }
    result
}

/// `substitute_free_variable` over the trees of a list of comparison links.
fn substitute_in_comparisons(links: &Vec<(Cmp, Expr<()>)>, variable: &Variable, replacement: &Expr<()>) -> (result: Vec<
    (Cmp, Expr<()>),
>)
    ensures
        comparison_views(result@) == free_substituted_links(
            comparison_views(links@),
            variable.view_variable(),
            replacement@,
        ),
    decreases links@, 0nat,
{
    let ghost v = variable.view_variable();
    let ghost all = comparison_views(links@);
    proof {
        lemma_comparison_views(links@);
    }
    let mut result: Vec<(Cmp, Expr<()>)> = Vec::new();
    let mut i: usize = 0;
    while i < links.len()
        invariant
            i <= links.len(),
            v == variable.view_variable(),
            all == comparison_views(links@),
            all.len() == links.len(),
            forall|j: int| 0 <= j < links.len() ==> #[trigger] all[j] == (links@[j].0, links@[j].1@),
            comparison_views(result@) == free_substituted_links(all.take(i as int), v, replacement@),
        decreases links.len() - i,
    {
        proof {
            assert(all.take(i + 1).drop_last() =~= all.take(i as int));
            assert(decreases_to!(links@ => links@[i as int]));
        }
        let ghost before = result@;
        let (op, expression) = &links[i];
        result.push((*op, substitute_free_variable(expression, variable, replacement)));
        proof {
            assert(result@.drop_last() =~= before);
        }
        i = i + 1;
    }
    proof {
        assert(all.take(links.len() as int) =~= all);
    }
    result
}

/// `substitute_free_variable` over the trees of a list of logic links.
fn substitute_in_logic(links: &Vec<(Logic, Expr<()>)>, variable: &Variable, replacement: &Expr<()>) -> (result: Vec<
    (Logic, Expr<()>),
>)
    ensures
        logic_views(result@) == free_substituted_links(logic_views(links@), variable.view_variable(), replacement@),
    decreases links@, 0nat,
{
    let ghost v = variable.view_variable();
    let ghost all = logic_views(links@);
    proof {
        lemma_logic_views(links@);
    }
    let mut result: Vec<(Logic, Expr<()>)> = Vec::new();
    let mut i: usize = 0;
    while i < links.len()
        invariant
            i <= links.len(),
            v == variable.view_variable(),
            all == logic_views(links@),
            all.len() == links.len(),
            forall|j: int| 0 <= j < links.len() ==> #[trigger] all[j] == (links@[j].0, links@[j].1@),
            logic_views(result@) == free_substituted_links(all.take(i as int), v, replacement@),
        decreases links.len() - i,
    {
        proof {
            assert(all.take(i + 1).drop_last() =~= all.take(i as int));
            assert(decreases_to!(links@ => links@[i as int]));
        }
        let ghost before = result@;
        let (op, expression) = &links[i];
        result.push((*op, substitute_free_variable(expression, variable, replacement)));
        proof {
            assert(result@.drop_last() =~= before);
        }
        i = i + 1;
    }
    proof {
        assert(all.take(links.len() as int) =~= all);
    }
    result
}

// ---------------------------------------------------------------------------
// Free variables
// ---------------------------------------------------------------------------

/// A walk that gathers free variables: the free variables found, the
/// binders in scope, and whether a sequence index was met that shadows a
/// binder in scope.
pub struct FreeWalk {
    pub found: Set<VariableView>,
    pub bound: Set<VariableView>,
    pub shadowed: bool,
}

/// A walk that has found nothing, with nothing bound.
pub open spec fn fresh_walk() -> FreeWalk {
    FreeWalk { found: Set::empty(), bound: Set::empty(), shadowed: false }
}

/// The walk after a tree. A variable is free unless bound; a sequence
/// operation binds its index in its body and a set comprehension its
/// variable in its predicate; the premises of a quantifier bind, in the
/// premises that follow and in the body, their free variables that are
/// neither free so far nor bound.
pub open spec fn walked(e: ExprView, w: FreeWalk) -> FreeWalk
    decreases e, 0nat,
{
    if w.shadowed {
        w
    } else {
        match e {
            ExprView::Variable(x) => if w.bound.contains(x) {
                w
            } else {
                FreeWalk { found: w.found.insert(x), ..w }
            },
            ExprView::StandardBasis(index, _) => walked(*index, w),
            ExprView::Type(t) => walked_type(t, w),
            ExprView::Matrix(_, _, elements) => walked_seq(elements, w),
            ExprView::Monop(_, x) => walked(*x, w),
            ExprView::Binop(_, x, y) => walked(*y, walked(*x, w)),
            ExprView::Triop(_, x, y, z) => walked(*z, walked(*y, walked(*x, w))),
            ExprView::Finop(op, operands) => if op == Finop::Forall || op == Finop::Exists {
                walked_quantifier(operands, w)
            } else {
                walked_seq(operands, w)
            },
            ExprView::CmpChain(start, links) => walked_links(links, walked(*start, w)),
            ExprView::LogicChain(start, links) => walked_links(links, walked(*start, w)),
            ExprView::Seqop(_, index, from, to, body) => walked_scope(walked(*to, walked(*from, w)), index, *body),
            ExprView::SetComprehension(x, domain, predicate) => walked_set_scope(walked_type(domain, w), x, *predicate),
            _ => w,
        }
    }
}

/// The walk through the body of a sequence operation over `index`; an
/// index already bound shadows it.
pub open spec fn walked_scope(w: FreeWalk, index: VariableView, body: ExprView) -> FreeWalk
    decreases body, 1nat,
{
    if w.shadowed {
        w
    } else if w.bound.contains(index) {
        FreeWalk { shadowed: true, ..w }
    } else {
        let inner = walked(body, FreeWalk { bound: w.bound.insert(index), ..w });
        FreeWalk { bound: inner.bound.remove(index), ..inner }
    }
}

/// The walk through the predicate of a set comprehension over `x`.
pub open spec fn walked_set_scope(w: FreeWalk, x: VariableView, predicate: ExprView) -> FreeWalk
    decreases predicate, 1nat,
{
    if w.shadowed {
        w
    } else if w.bound.contains(x) {
        walked(predicate, w)
    } else {
        let inner = walked(predicate, FreeWalk { bound: w.bound.insert(x), ..w });
        FreeWalk { bound: inner.bound.remove(x), ..inner }
    }
}

/// The walk through a quantifier: its premises, then its body, after which
/// the variables the premises introduced are no longer bound.
pub open spec fn walked_quantifier(operands: Seq<ExprView>, w: FreeWalk) -> FreeWalk
    decreases operands, 1nat,
{
    if w.shadowed || operands.len() == 0 {
        w
    } else {
        let premises = walked_premises(operands.drop_last(), w);
        let after = walked(operands.last(), premises.0);
        FreeWalk { bound: after.bound.difference(premises.1), ..after }
    }
}

/// The walk through the premises of a quantifier, with the set of variables
/// they introduce.
pub open spec fn walked_premises(premises: Seq<ExprView>, w: FreeWalk) -> (FreeWalk, Set<VariableView>)
    decreases premises, 1nat,
{
    if w.shadowed || premises.len() == 0 {
        (w, Set::empty())
    } else {
        let prior = walked_premises(premises.drop_last(), w);
        let premise = premises.last();
        let own = walked(premise, fresh_walk());
        let introduced = prior.1.union(own.found.difference(prior.0.found).difference(prior.0.bound));
        if prior.0.shadowed {
            prior
        } else if own.shadowed {
            (FreeWalk { shadowed: true, ..prior.0 }, introduced)
        } else {
            (walked(premise, FreeWalk { bound: prior.0.bound.union(introduced), ..prior.0 }), introduced)
        }
    }
}

/// `walked` over the dimension expressions of a type.
pub open spec fn walked_type(t: TypeView, w: FreeWalk) -> FreeWalk
    decreases t, 0nat,
{
    if w.shadowed {
        w
    } else {
        match t {
            TypeView::Matrix(x, y) => walked(*y, walked(*x, w)),
            TypeView::Sequence(x, y) => walked(*y, walked(*x, w)),
            TypeView::SetOf(inner) => walked_type(*inner, w),
            _ => w,
        }
    }
}

/// `walked` over a list of trees, in order.
pub open spec fn walked_seq(s: Seq<ExprView>, w: FreeWalk) -> FreeWalk
    decreases s, 1nat,
{
    if w.shadowed || s.len() == 0 {
        w
    } else {
        walked(s.last(), walked_seq(s.drop_last(), w))
    }
}

/// `walked` over the trees of a list of links, in order.
pub open spec fn walked_links<O>(s: Seq<(O, ExprView)>, w: FreeWalk) -> FreeWalk
    decreases s, 1nat,
{
    if w.shadowed || s.len() == 0 {
        w
    } else {
        walked(s.last().1, walked_links(s.drop_last(), w))
    }
}

/// Gathering free variables leaves the bound variables as it found them.
proof fn lemma_walk_restores_bound(e: ExprView, w: FreeWalk)
    requires
        !walked(e, w).shadowed,
    ensures
        walked(e, w).bound == w.bound,
    decreases e, 0nat,
{
    match e {
        ExprView::StandardBasis(index, _) => lemma_walk_restores_bound(*index, w),
        ExprView::Type(t) => lemma_walk_type_restores_bound(t, w),
        ExprView::Matrix(_, _, elements) => lemma_walk_seq_restores_bound(elements, w),
        ExprView::Monop(_, x) => lemma_walk_restores_bound(*x, w),
        ExprView::Binop(_, x, y) => {
            let wx = walked(*x, w);
            if !wx.shadowed {
                lemma_walk_restores_bound(*x, w);
                lemma_walk_restores_bound(*y, wx);
            }
        },
        ExprView::Triop(_, x, y, z) => {
            let wx = walked(*x, w);
            let wy = walked(*y, wx);
            if !wx.shadowed && !wy.shadowed {
                lemma_walk_restores_bound(*x, w);
                lemma_walk_restores_bound(*y, wx);
                lemma_walk_restores_bound(*z, wy);
            }
        },
        ExprView::Finop(op, operands) => {
            if op == Finop::Forall || op == Finop::Exists {
                lemma_walk_quantifier_restores_bound(operands, w);
            } else {
                lemma_walk_seq_restores_bound(operands, w);
            }
        },
        ExprView::CmpChain(start, links) => {
            let ws = walked(*start, w);
            if !ws.shadowed {
                lemma_walk_restores_bound(*start, w);
                lemma_walk_links_restores_bound(links, ws);
            }
        },
        ExprView::LogicChain(start, links) => {
            let ws = walked(*start, w);
            if !ws.shadowed {
                lemma_walk_restores_bound(*start, w);
                lemma_walk_links_restores_bound(links, ws);
            }
        },
        ExprView::Seqop(_, index, from, to, body) => {
            let wf = walked(*from, w);
            let wt = walked(*to, wf);
            if !wf.shadowed && !wt.shadowed {
                lemma_walk_restores_bound(*from, w);
                lemma_walk_restores_bound(*to, wf);
                assert(walked(e, w) == walked_scope(wt, index, *body));
                if !wt.bound.contains(index) {
                    let entered = FreeWalk { bound: wt.bound.insert(index), ..wt };
                    if !walked(*body, entered).shadowed {
                        lemma_walk_restores_bound(*body, entered);
                        assert(wt.bound.insert(index).remove(index) =~= wt.bound);
                    }
                }
            }
        },
        ExprView::SetComprehension(x, domain, predicate) => {
            let wd = walked_type(domain, w);
            if !wd.shadowed {
                lemma_walk_type_restores_bound(domain, w);
                assert(walked(e, w) == walked_set_scope(wd, x, *predicate));
                if wd.bound.contains(x) {
                    lemma_walk_restores_bound(*predicate, wd);
                } else {
                    let entered = FreeWalk { bound: wd.bound.insert(x), ..wd };
                    if !walked(*predicate, entered).shadowed {
                        lemma_walk_restores_bound(*predicate, entered);
                        assert(wd.bound.insert(x).remove(x) =~= wd.bound);
                    }
                }
            }
        },
        _ => {},
    }
}

proof fn lemma_walk_type_restores_bound(t: TypeView, w: FreeWalk)
    requires
        !walked_type(t, w).shadowed,
    ensures
        walked_type(t, w).bound == w.bound,
    decreases t, 0nat,
{
    match t {
        TypeView::Matrix(x, y) => {
            let wx = walked(*x, w);
            if !wx.shadowed {
                lemma_walk_restores_bound(*x, w);
                lemma_walk_restores_bound(*y, wx);
            }
        },
        TypeView::Sequence(x, y) => {
            let wx = walked(*x, w);
            if !wx.shadowed {
                lemma_walk_restores_bound(*x, w);
                lemma_walk_restores_bound(*y, wx);
            }
        },
        TypeView::SetOf(inner) => lemma_walk_type_restores_bound(*inner, w),
        _ => {},
    }
}

proof fn lemma_walk_seq_restores_bound(s: Seq<ExprView>, w: FreeWalk)
    requires
        !walked_seq(s, w).shadowed,
    ensures
        walked_seq(s, w).bound == w.bound,
    decreases s, 1nat,
{
    if s.len() > 0 && !w.shadowed {
        let prior = walked_seq(s.drop_last(), w);
        if !prior.shadowed {
            lemma_walk_seq_restores_bound(s.drop_last(), w);
            lemma_walk_restores_bound(s.last(), prior);
        }
    }
}

proof fn lemma_walk_links_restores_bound<O>(s: Seq<(O, ExprView)>, w: FreeWalk)
    requires
        !walked_links(s, w).shadowed,
    ensures
        walked_links(s, w).bound == w.bound,
    decreases s, 1nat,
{
    if s.len() > 0 && !w.shadowed {
        let prior = walked_links(s.drop_last(), w);
        if !prior.shadowed {
            lemma_walk_links_restores_bound(s.drop_last(), w);
            lemma_walk_restores_bound(s.last().1, prior);
        }
    }
}

proof fn lemma_walk_quantifier_restores_bound(operands: Seq<ExprView>, w: FreeWalk)
    requires
        !walked_quantifier(operands, w).shadowed,
    ensures
        walked_quantifier(operands, w).bound == w.bound,
    decreases operands, 1nat,
{
    if !w.shadowed && operands.len() > 0 {
        let premises = walked_premises(operands.drop_last(), w);
        if !premises.0.shadowed {
            lemma_premises_bound(operands.drop_last(), w);
            lemma_walk_restores_bound(operands.last(), premises.0);
            assert((w.bound.union(premises.1)).difference(premises.1) =~= w.bound);
        }
    }
}

/// The premises of a quantifier bind exactly the variables they introduce,
/// none of which was bound before.
proof fn lemma_premises_bound(premises: Seq<ExprView>, w: FreeWalk)
    requires
        !walked_premises(premises, w).0.shadowed,
    ensures
        walked_premises(premises, w).0.bound == w.bound.union(walked_premises(premises, w).1),
        walked_premises(premises, w).1.disjoint(w.bound),
    decreases premises, 1nat,
{
    if premises.len() == 0 {
        assert(w.bound.union(Set::empty()) =~= w.bound);
    } else if !w.shadowed {
        let prior = walked_premises(premises.drop_last(), w);
        if !prior.0.shadowed {
            lemma_premises_bound(premises.drop_last(), w);
            let premise = premises.last();
            let own = walked(premise, fresh_walk());
            let introduced = prior.1.union(own.found.difference(prior.0.found).difference(prior.0.bound));
            if !own.shadowed {
                let entered = FreeWalk { bound: prior.0.bound.union(introduced), ..prior.0 };
                lemma_walk_restores_bound(premise, entered);
                assert(prior.0.bound.union(introduced) =~= w.bound.union(introduced));
            }
        }
    }
}

/// A walk through more premises of a quantifier stays shadowed once a
/// prefix is.
proof fn lemma_premises_stay_shadowed(premises: Seq<ExprView>, w: FreeWalk, k: int)
    requires
        0 <= k <= premises.len(),
        walked_premises(premises.take(k), w).0.shadowed,
    ensures
        walked_premises(premises, w).0.shadowed,
    decreases premises.len() - k,
{
    if k < premises.len() {
        assert(premises.take(k + 1).drop_last() =~= premises.take(k));
        lemma_premises_stay_shadowed(premises, w, k + 1);
    } else {
        assert(premises.take(k) =~= premises);
    }
}

/// A walk through more trees stays shadowed once a prefix is.
proof fn lemma_seq_stays_shadowed(s: Seq<ExprView>, w: FreeWalk, k: int)
    requires
        0 <= k <= s.len(),
        walked_seq(s.take(k), w).shadowed,
    ensures
        walked_seq(s, w).shadowed,
    decreases s.len() - k,
{
    if k < s.len() {
        assert(s.take(k + 1).drop_last() =~= s.take(k));
        assert(s.take(k + 1).last() == s[k]);
        assert(walked(s[k], walked_seq(s.take(k), w)) == walked_seq(s.take(k), w));
        lemma_seq_stays_shadowed(s, w, k + 1);
    } else {
        assert(s.take(k) =~= s);
    }
}

/// The link form of `lemma_seq_stays_shadowed`.
proof fn lemma_links_stay_shadowed<O>(s: Seq<(O, ExprView)>, w: FreeWalk, k: int)
    requires
        0 <= k <= s.len(),
        walked_links(s.take(k), w).shadowed,
    ensures
        walked_links(s, w).shadowed,
    decreases s.len() - k,
{
    if k < s.len() {
        assert(s.take(k + 1).drop_last() =~= s.take(k));
        assert(s.take(k + 1).last() == s[k]);
        assert(walked(s[k].1, walked_links(s.take(k), w)) == walked_links(s.take(k), w));
        lemma_links_stay_shadowed(s, w, k + 1);
    } else {
        assert(s.take(k) =~= s);
    }
}

/// The walk state of a collector, which never holds a shadowing.
pub open spec fn walk_state(found: Seq<Variable>, bound: Seq<Variable>) -> FreeWalk {
    FreeWalk { found: variable_set(found), bound: variable_set(bound), shadowed: false }
}

/// Gathers free variables; the binders in scope form a stack.
struct FreeCollector {
    found: Vec<Variable>,
    bound: Vec<Variable>,
}

impl FreeCollector {
    spec fn walk(&self) -> FreeWalk {
        walk_state(self.found@, self.bound@)
    }

    spec fn inv(&self) -> bool {
        distinct_variables(self.found@) && distinct_variables(self.bound@)
    }

    /// Pushes a binder that is not in scope.
    fn enter(&mut self, binder: &Variable)
        requires
            old(self).inv(),
            !old(self).walk().bound.contains(binder.view_variable()),
        ensures
            final(self).inv(),
            final(self).found@ == old(self).found@,
            final(self).bound@ == old(self).bound@.push(final(self).bound@.last()),
            final(self).walk() == (FreeWalk { bound: old(self).walk().bound.insert(binder.view_variable()), ..old(self).walk() }),
    {
        let ghost before = self.bound@;
        proof {
            lemma_variable_set(before);
        }
        self.bound.push(binder.duplicate());
        proof {
            lemma_variable_set(before);
            assert(self.bound@.drop_last() =~= before);
            assert(variable_set(self.bound@) =~= variable_set(before).insert(binder.view_variable()));
            assert forall|i: int, j: int| 0 <= i < j < self.bound@.len() implies self.bound@[i].view_variable()
                != self.bound@[j].view_variable() by {
                if j == self.bound@.len() - 1 {
                    assert(variable_set(before).contains(before[i].view_variable()));
                }
            }
        }
    }

    /// Collects the free variables of a tree, as `walked` describes it.
    #[verifier::rlimit(60)]
    fn visit<Metadata>(&mut self, e: &Expr<Metadata>)
        requires
            old(self).inv(),
            !walked(e@, old(self).walk()).shadowed,
        ensures
            final(self).inv(),
            final(self).bound@ == old(self).bound@,
            final(self).walk() == walked(e@, old(self).walk()),
        decreases *e, 0nat,
    {
        let ghost w = self.walk();
        match e.raw() {
            RawExpr::Variable(x) => {
                if !crate::operator_visitors::listed(&self.bound, x) {
                    crate::expression_utils::insert_variable(&mut self.found, x);
                }
            },
            RawExpr::StandardBasis { index, .. } => self.visit(index),
            RawExpr::Type(t) => self.visit_type(t),
            RawExpr::Matrix(m) => self.visit_list(&m.elements),
            RawExpr::Monop(_, x) => self.visit(x),
            RawExpr::Binop(_, x, y) => {
                proof {
                    if walked(x@, w).shadowed {
                        assert(walked(y@, walked(x@, w)) == walked(x@, w));
                    }
                }
                self.visit(x);
                self.visit(y);
            },
            RawExpr::Triop(_, x, y, z) => {
                proof {
                    let wx = walked(x@, w);
                    let wy = walked(y@, wx);
                    if wx.shadowed {
                        assert(walked(y@, wx) == wx);
                        assert(walked(z@, wx) == wx);
                    } else if wy.shadowed {
                        assert(walked(z@, wy) == wy);
                    }
                }
                self.visit(x);
                self.visit(y);
                self.visit(z);
            },
            RawExpr::Finop(op, operands) => match op {
                Finop::Forall | Finop::Exists => self.visit_quantifier(operands),
                _ => self.visit_list(operands),
            },
            RawExpr::CmpChain(c) => {
                proof {
                    let ws = walked(c.start@, w);
                    if ws.shadowed {
                        assert(walked_links(comparison_views(c.assertions@), ws) == ws);
                    }
                }
                self.visit(&c.start);
                self.visit_comparisons(&c.assertions);
            },
            RawExpr::LogicChain(c) => {
                proof {
                    let ws = walked(c.start@, w);
                    if ws.shadowed {
                        assert(walked_links(logic_views(c.assertions@), ws) == ws);
                    }
                }
                self.visit(&c.start);
                self.visit_logic(&c.assertions);
            },
            RawExpr::Seqop(_, range, body) => {
                proof {
                    let wf = walked(range.from@, w);
                    let wt = walked(range.to@, wf);
                    if wf.shadowed {
                        assert(walked(range.to@, wf) == wf);
                        assert(walked_scope(wf, range.index_variable.view_variable(), body@) == wf);
                    } else if wt.shadowed {
                        assert(walked_scope(wt, range.index_variable.view_variable(), body@) == wt);
                    }
                }
                self.visit(&range.from);
                self.visit(&range.to);
                self.visit_scope(&range.index_variable, body);
            },
            RawExpr::SetComprehension { variable, domain, predicate } => {
                proof {
                    let wd = walked_type(type_view(*domain), w);
                    if wd.shadowed {
                        assert(walked_set_scope(wd, variable.view_variable(), predicate@) == wd);
                    }
                }
                self.visit_type(domain);
                self.visit_set_scope(variable, predicate);
            },
            _ => {},
        }
    }

    /// The body of a sequence operation over `index`.
    fn visit_scope<Metadata>(&mut self, index: &Variable, body: &Expr<Metadata>)
        requires
            old(self).inv(),
            !walked_scope(old(self).walk(), index.view_variable(), body@).shadowed,
        ensures
            final(self).inv(),
            final(self).bound@ == old(self).bound@,
            final(self).walk() == walked_scope(old(self).walk(), index.view_variable(), body@),
        decreases *body, 1nat,
    {
        let ghost before = self.bound@;
        let ghost w = self.walk();
        let ghost entered = FreeWalk { bound: w.bound.insert(index.view_variable()), ..w };
        self.enter(index);
        proof {
            lemma_walk_restores_bound(body@, entered);
        }
        self.visit(body);
        self.bound.pop();
        proof {
            assert(self.bound@ =~= before);
            assert(w.bound.insert(index.view_variable()).remove(index.view_variable()) =~= w.bound);
        }
    }

    /// The predicate of a set comprehension over `x`.
    fn visit_set_scope<Metadata>(&mut self, x: &Variable, predicate: &Expr<Metadata>)
        requires
            old(self).inv(),
            !walked_set_scope(old(self).walk(), x.view_variable(), predicate@).shadowed,
        ensures
            final(self).inv(),
            final(self).bound@ == old(self).bound@,
            final(self).walk() == walked_set_scope(old(self).walk(), x.view_variable(), predicate@),
        decreases *predicate, 1nat,
    {
        if crate::operator_visitors::listed(&self.bound, x) {
            self.visit(predicate);
            return;
        }
        let ghost before = self.bound@;
        let ghost w = self.walk();
        let ghost entered = FreeWalk { bound: w.bound.insert(x.view_variable()), ..w };
        self.enter(x);
        proof {
            lemma_walk_restores_bound(predicate@, entered);
        }
        self.visit(predicate);
        self.bound.pop();
        proof {
            assert(self.bound@ =~= before);
            assert(w.bound.insert(x.view_variable()).remove(x.view_variable()) =~= w.bound);
        }
    }

    fn visit_type<Metadata>(&mut self, t: &TypeExpr<Metadata>)
        requires
            old(self).inv(),
            !walked_type(type_view(*t), old(self).walk()).shadowed,
        ensures
            final(self).inv(),
            final(self).bound@ == old(self).bound@,
            final(self).walk() == walked_type(type_view(*t), old(self).walk()),
        decreases *t, 0nat,
    {
        let ghost w = self.walk();
        match t {
            TypeExpr::Matrix(x, y) => {
                proof {
                    if walked(x@, w).shadowed {
                        assert(walked(y@, walked(x@, w)) == walked(x@, w));
                    }
                }
                self.visit(x);
                self.visit(y);
            },
            TypeExpr::Sequence(x, y) => {
                proof {
                    if walked(x@, w).shadowed {
                        assert(walked(y@, walked(x@, w)) == walked(x@, w));
                    }
                }
                self.visit(x);
                self.visit(y);
            },
            TypeExpr::SetOf(inner) => {
                let inner: &TypeExpr<Metadata> = inner;
                self.visit_type(inner);
            },
            _ => {},
        }
    }

    fn visit_list<Metadata>(&mut self, xs: &Vec<Expr<Metadata>>)
        requires
            old(self).inv(),
            !walked_seq(views(xs@), old(self).walk()).shadowed,
        ensures
            final(self).inv(),
            final(self).bound@ == old(self).bound@,
            final(self).walk() == walked_seq(views(xs@), old(self).walk()),
        decreases xs@, 0nat,
    {
        let ghost w0 = self.walk();
        let ghost all = views(xs@);
        proof {
            lemma_views(xs@);
        }
        let mut i: usize = 0;
        while i < xs.len()
            invariant
                i <= xs.len(),
                self.inv(),
                self.bound@ == old(self).bound@,
                all == views(xs@),
                all.len() == xs.len(),
                forall|j: int| 0 <= j < xs.len() ==> #[trigger] all[j] == xs@[j]@,
                !walked_seq(all, w0).shadowed,
                self.walk() == walked_seq(all.take(i as int), w0),
            decreases xs.len() - i,
        {
            proof {
                assert(all.take(i + 1).drop_last() =~= all.take(i as int));
                assert(decreases_to!(xs@ => xs@[i as int]));
                if walked_seq(all.take(i + 1), w0).shadowed {
                    lemma_seq_stays_shadowed(all, w0, i + 1);
                }
            }
            self.visit(&xs[i]);
            i = i + 1;
        }
        proof {
            assert(all.take(xs.len() as int) =~= all);
        }
    }

    fn visit_comparisons<Metadata>(&mut self, xs: &Vec<(Cmp, Expr<Metadata>)>)
        requires
            old(self).inv(),
            !walked_links(comparison_views(xs@), old(self).walk()).shadowed,
        ensures
            final(self).inv(),
            final(self).bound@ == old(self).bound@,
            final(self).walk() == walked_links(comparison_views(xs@), old(self).walk()),
        decreases xs@, 0nat,
    {
        let ghost w0 = self.walk();
        let ghost all = comparison_views(xs@);
        proof {
            lemma_comparison_views(xs@);
        }
        let mut i: usize = 0;
        while i < xs.len()
            invariant
                i <= xs.len(),
                self.inv(),
                self.bound@ == old(self).bound@,
                all == comparison_views(xs@),
                all.len() == xs.len(),
                forall|j: int| 0 <= j < xs.len() ==> #[trigger] all[j] == (xs@[j].0, xs@[j].1@),
                !walked_links(all, w0).shadowed,
                self.walk() == walked_links(all.take(i as int), w0),
            decreases xs.len() - i,
        {
            proof {
                assert(all.take(i + 1).drop_last() =~= all.take(i as int));
                assert(decreases_to!(xs@ => xs@[i as int]));
                if walked_links(all.take(i + 1), w0).shadowed {
                    lemma_links_stay_shadowed(all, w0, i + 1);
                }
            }
            self.visit(&xs[i].1);
            i = i + 1;
        }
        proof {
            assert(all.take(xs.len() as int) =~= all);
        }
    }

    fn visit_logic<Metadata>(&mut self, xs: &Vec<(Logic, Expr<Metadata>)>)
        requires
            old(self).inv(),
            !walked_links(logic_views(xs@), old(self).walk()).shadowed,
        ensures
            final(self).inv(),
            final(self).bound@ == old(self).bound@,
            final(self).walk() == walked_links(logic_views(xs@), old(self).walk()),
        decreases xs@, 0nat,
    {
        let ghost w0 = self.walk();
        let ghost all = logic_views(xs@);
        proof {
            lemma_logic_views(xs@);
        }
        let mut i: usize = 0;
        while i < xs.len()
            invariant
                i <= xs.len(),
                self.inv(),
                self.bound@ == old(self).bound@,
                all == logic_views(xs@),
                all.len() == xs.len(),
                forall|j: int| 0 <= j < xs.len() ==> #[trigger] all[j] == (xs@[j].0, xs@[j].1@),
                !walked_links(all, w0).shadowed,
                self.walk() == walked_links(all.take(i as int), w0),
            decreases xs.len() - i,
        {
            proof {
                assert(all.take(i + 1).drop_last() =~= all.take(i as int));
                assert(decreases_to!(xs@ => xs@[i as int]));
                if walked_links(all.take(i + 1), w0).shadowed {
                    lemma_links_stay_shadowed(all, w0, i + 1);
                }
            }
            self.visit(&xs[i].1);
            i = i + 1;
        }
        proof {
            assert(all.take(xs.len() as int) =~= all);
        }
    }

    /// A quantifier: its premises bind their new free variables in what
    /// follows them, then its body, after which those variables are unbound.
    #[verifier::rlimit(60)]
    fn visit_quantifier<Metadata>(&mut self, xs: &Vec<Expr<Metadata>>)
        requires
            old(self).inv(),
            !walked_quantifier(views(xs@), old(self).walk()).shadowed,
        ensures
            final(self).inv(),
            final(self).bound@ == old(self).bound@,
            final(self).walk() == walked_quantifier(views(xs@), old(self).walk()),
        decreases xs@, 1nat,
    {
        if xs.len() == 0 {
            return;
        }
        let ghost w0 = self.walk();
        let ghost all = views(xs@);
        let ghost premises = all.drop_last();
        proof {
            lemma_views(xs@);
            assert(premises.take(0) =~= Seq::<ExprView>::empty());
        }
        let n = self.bound.len();
        let last = xs.len() - 1;
        let mut i: usize = 0;
        while i < last
            invariant
                last == xs.len() - 1,
                i <= last,
                self.inv(),
                all == views(xs@),
                all.len() == xs.len(),
                forall|j: int| 0 <= j < xs.len() ==> #[trigger] all[j] == xs@[j]@,
                premises == all.drop_last(),
                !w0.shadowed,
                !walked_quantifier(all, w0).shadowed,
                n == old(self).bound@.len(),
                self.bound@.len() >= n,
                self.bound@.take(n as int) == old(self).bound@,
                self.walk() == walked_premises(premises.take(i as int), w0).0,
            decreases last - i,
        {
            let ghost prior = walked_premises(premises.take(i as int), w0);
            let ghost premise = all[i as int];
            proof {
                assert(premises.take(i + 1).drop_last() =~= premises.take(i as int));
                assert(premises.take(i + 1).last() == premise);
                assert(decreases_to!(xs@ => xs@[i as int]));
                if walked_premises(premises.take(i + 1), w0).0.shadowed {
                    lemma_premises_stay_shadowed(premises, w0, i + 1);
                    assert(walked(all.last(), walked_premises(premises, w0).0) == walked_premises(premises, w0).0);
                }
                lemma_premises_bound(premises.take(i as int), w0);
            }
            let own = free_variables_of(&xs[i]);
            let ghost base = self.bound@;
            let ghost found_now = variable_set(self.found@);
            let ghost fresh_names = variable_set(own@).difference(found_now).difference(variable_set(base));
            let mut k: usize = 0;
            proof {
                assert(variable_set(own@.take(0)) =~= Set::<VariableView>::empty());
                assert(variable_set(base).union(Set::<VariableView>::empty().difference(found_now).difference(
                    variable_set(base),
                )) =~= variable_set(base));
            }
            while k < own.len()
                invariant
                    k <= own.len(),
                    self.inv(),
                    variable_set(self.found@) == found_now,
                    self.bound@.len() >= base.len(),
                    self.bound@.take(base.len() as int) == base,
                    variable_set(self.bound@) == variable_set(base).union(
                        variable_set(own@.take(k as int)).difference(found_now).difference(variable_set(base)),
                    ),
                decreases own.len() - k,
            {
                let ghost current = self.bound@;
                proof {
                    assert(own@.take(k + 1).drop_last() =~= own@.take(k as int));
                    assert(own@.take(k + 1).last() == own@[k as int]);
                }
                let candidate = &own[k];
                if !crate::operator_visitors::listed(&self.found, candidate)
                    && !crate::operator_visitors::listed(&self.bound, candidate) {
                    self.enter(candidate);
                    proof {
                        assert(self.bound@.take(base.len() as int) =~= current.take(base.len() as int));
                    }
                }
                proof {
                    assert(variable_set(self.bound@) =~= variable_set(base).union(
                        variable_set(own@.take(k + 1)).difference(found_now).difference(variable_set(base)),
                    ));
                }
                k = k + 1;
            }
            proof {
                assert(own@.take(own.len() as int) =~= own@);
                let introduced = prior.1.union(fresh_names);
                assert(variable_set(self.bound@) =~= prior.0.bound.union(introduced));
                assert(self.walk() == (FreeWalk { bound: prior.0.bound.union(introduced), ..prior.0 }));
                assert(self.bound@.take(n as int) =~= base.take(n as int));
            }
            self.visit(&xs[i]);
            i = i + 1;
        }
        proof {
            assert(premises.take(last as int) =~= premises);
            assert(all.last() == xs@[last as int]@);
            assert(decreases_to!(xs@ => xs@[last as int]));
        }
        self.visit(&xs[last]);
        self.bound.truncate(n);
        proof {
            let result = walked_premises(premises, w0);
            lemma_premises_bound(premises, w0);
            lemma_walk_restores_bound(all.last(), result.0);
            assert(self.bound@ =~= old(self).bound@);
            assert(w0.bound.union(result.1).difference(result.1) =~= w0.bound);
        }
    }
}

/// The free variables of one tree.
pub fn free_variables_of<Metadata>(expression: &Expr<Metadata>) -> (found: Vec<Variable>)
    requires
        !walked(expression@, fresh_walk()).shadowed,
    ensures
        distinct_variables(found@),
        variable_set(found@) == walked(expression@, fresh_walk()).found,
    decreases *expression, 2nat,
{
    let mut collector = FreeCollector { found: Vec::new(), bound: Vec::new() };
    proof {
        assert(collector.walk() =~= fresh_walk());
    }
    collector.visit(expression);
    collector.found
}

/// The free variables of the expressions, gathered in order in one walk.
pub fn free_variables<Metadata>(expressions: &Vec<Expr<Metadata>>) -> (found: Vec<Variable>)
    requires
        !walked_seq(views(expressions@), fresh_walk()).shadowed,
    ensures
        distinct_variables(found@),
        variable_set(found@) == walked_seq(views(expressions@), fresh_walk()).found,
{
    let mut collector = FreeCollector { found: Vec::new(), bound: Vec::new() };
    proof {
        assert(collector.walk() =~= fresh_walk());
    }
    collector.visit_list(expressions);
    collector.found
}

/// The variables that the premises of a quantifier (all its operands but
/// the last) leave free and that are not among `accessible`.
pub fn quantifier_binders<Metadata>(expressions: &Vec<Expr<Metadata>>, accessible: &Vec<Variable>) -> (binders: Vec<Variable>)
    requires
        forall|i: int| 0 <= i < expressions.len() - 1 ==> !walked(#[trigger] expressions@[i]@, fresh_walk()).shadowed,
    ensures
        distinct_variables(binders@),
        forall|v: VariableView| #[trigger] variable_set(binders@).contains(v) <==> !variable_set(accessible@).contains(v)
            && exists|i: int| 0 <= i < expressions.len() - 1 && #[trigger] walked(expressions@[i]@, fresh_walk()).found.contains(v),
{
    let mut binders: Vec<Variable> = Vec::new();
    if expressions.len() == 0 {
        proof {
            assert(variable_set(binders@) =~= Set::<VariableView>::empty());
        }
        return binders;
    }
    let premises = expressions.len() - 1;
    let mut i: usize = 0;
    proof {
        assert(variable_set(binders@) =~= Set::<VariableView>::empty());
    }
    while i < premises
        invariant
            premises == expressions.len() - 1,
            i <= premises,
            forall|j: int| 0 <= j < expressions.len() - 1 ==> !walked(#[trigger] expressions@[j]@, fresh_walk()).shadowed,
            distinct_variables(binders@),
            forall|v: VariableView| #[trigger] variable_set(binders@).contains(v) <==> !variable_set(accessible@).contains(v)
                && exists|j: int| 0 <= j < i && #[trigger] walked(expressions@[j]@, fresh_walk()).found.contains(v),
        decreases premises - i,
    {
        let own = free_variables_of(&expressions[i]);
        let ghost before = variable_set(binders@);
        let mut k: usize = 0;
        proof {
            assert(variable_set(own@.take(0)) =~= Set::<VariableView>::empty());
        }
        while k < own.len()
            invariant
                k <= own.len(),
                distinct_variables(binders@),
                forall|v: VariableView| #[trigger] variable_set(binders@).contains(v) <==> before.contains(v) || (
                    variable_set(own@.take(k as int)).contains(v) && !variable_set(accessible@).contains(v)),
            decreases own.len() - k,
        {
            proof {
                assert(own@.take(k + 1).drop_last() =~= own@.take(k as int));
                assert(own@.take(k + 1).last() == own@[k as int]);
            }
            if !crate::operator_visitors::listed(accessible, &own[k]) {
                crate::expression_utils::insert_variable(&mut binders, &own[k]);
            }
            k = k + 1;
        }
        proof {
            assert(own@.take(own.len() as int) =~= own@);
            assert forall|v: VariableView| #[trigger] variable_set(binders@).contains(v) <==> !variable_set(
                accessible@,
            ).contains(v) && exists|j: int| 0 <= j < i + 1 && #[trigger] walked(expressions@[j]@, fresh_walk()).found.contains(
                v,
            ) by {
                if variable_set(own@).contains(v) {
                    assert(walked(expressions@[i as int]@, fresh_walk()).found.contains(v));
                }
                if exists|j: int| 0 <= j < i + 1 && #[trigger] walked(expressions@[j]@, fresh_walk()).found.contains(v) {
                    let j = choose|j: int| 0 <= j < i + 1 && #[trigger] walked(expressions@[j]@, fresh_walk()).found.contains(v);
                    if j == i {
                        assert(variable_set(own@).contains(v));
                    }
                }
            }
        }
        i = i + 1;
    }
    binders
}

} // verus!
