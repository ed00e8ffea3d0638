//! De Bruijn manipulation of dependent sequence types: a sequence type's
//! element type may mention the (one-based) position of the element, as
//! the bound natural of index 0 inside the element.
use vstd::prelude::*;

use crate::expression_utils::{
    lemma_link_member_size, lemma_member_size, max_bound_index, max_bound_index_links,
    max_bound_index_seq, max_bound_index_type, size, sizes, link_sizes, type_size, larger,
    lemma_size_positive_everywhere, lemma_type_measures, lemma_comparison_chain_measures,
    lemma_logic_chain_measures,
};
use crate::view::{
    comparison_views, lemma_comparison_views, lemma_logic_views, logic_views, lemma_views,
    type_view, views, ExprView, TypeView, VariableView,
};
use crate::{
    Cmp, CmpChain, DeBruijnIndex, Expr, Finop, Logic, LogicChain, Matrix, Range, RawExpr,
    TypeExpr, Variable,
};

verus! {

/// The tree with every bound natural of index at least `cutoff` (counted from the enclosing binders) raised by `amount`.
pub open spec fn shifted(e: ExprView, cutoff: int, amount: int) -> ExprView
    decreases e, 0nat,
{
    match e {
        ExprView::BoundNatural(d) => if d >= cutoff { ExprView::BoundNatural((d + amount) as usize) } else { e },
        ExprView::StandardBasis(index, d) => ExprView::StandardBasis(Box::new(shifted(*index, cutoff, amount)), d),
        ExprView::Type(t) => ExprView::Type(shifted_type(t, cutoff, amount)),
        ExprView::Matrix(rows, cols, elements) => ExprView::Matrix(rows, cols, shifted_seq(elements, cutoff, amount)),
        ExprView::Monop(op, x) => ExprView::Monop(op, Box::new(shifted(*x, cutoff, amount))),
        ExprView::Binop(op, x, y) => ExprView::Binop(op, Box::new(shifted(*x, cutoff, amount)), Box::new(shifted(*y, cutoff, amount))),
        ExprView::Triop(op, x, y, z) => ExprView::Triop(op, Box::new(shifted(*x, cutoff, amount)), Box::new(shifted(*y, cutoff, amount)), Box::new(shifted(*z, cutoff, amount))),
        ExprView::Finop(op, operands) => ExprView::Finop(op, shifted_seq(operands, cutoff, amount)),
        ExprView::CmpChain(start, links) => ExprView::CmpChain(Box::new(shifted(*start, cutoff, amount)), shifted_links(links, cutoff, amount)),
        ExprView::LogicChain(start, links) => ExprView::LogicChain(Box::new(shifted(*start, cutoff, amount)), shifted_links(links, cutoff, amount)),
        ExprView::Seqop(op, bv, from, to, body) => ExprView::Seqop(op, bv, Box::new(shifted(*from, cutoff, amount)), Box::new(shifted(*to, cutoff, amount)), Box::new(shifted(*body, cutoff, amount))),
        ExprView::SetComprehension(bv, domain, predicate) => ExprView::SetComprehension(bv, shifted_type(domain, cutoff, amount), Box::new(shifted(*predicate, cutoff, amount))),
        _ => e,
    }
}

/// `shifted` over the dimension expressions of a type.
pub open spec fn shifted_type(t: TypeView, cutoff: int, amount: int) -> TypeView
    decreases t, 0nat,
{
    match t {
        TypeView::Matrix(x, y) => TypeView::Matrix(Box::new(shifted(*x, cutoff, amount)), Box::new(shifted(*y, cutoff, amount))),
        TypeView::Sequence(x, y) => TypeView::Sequence(Box::new(shifted(*x, cutoff + 1, amount)), Box::new(shifted(*y, cutoff, amount))),
        TypeView::SetOf(inner) => TypeView::SetOf(Box::new(shifted_type(*inner, cutoff, amount))),
        _ => t,
    }
}

/// `shifted` over a list of trees.
pub open spec fn shifted_seq(s: Seq<ExprView>, cutoff: int, amount: int) -> Seq<ExprView>
    decreases s, 1nat,
{
    if s.len() == 0 {
        s
    } else {
        shifted_seq(s.drop_last(), cutoff, amount).push(shifted(s.last(), cutoff, amount))
    }
}

/// `shifted` over the trees of a list of links.
pub open spec fn shifted_links<O>(s: Seq<(O, ExprView)>, cutoff: int, amount: int) -> Seq<(O, ExprView)>
    decreases s, 1nat,
{
    if s.len() == 0 {
        s
    } else {
        shifted_links(s.drop_last(), cutoff, amount).push((s.last().0, shifted(s.last().1, cutoff, amount)))
    }
}

/// Raises the free bound naturals at or above `cutoff`.
pub fn shift_from(expression: &Expr<()>, cutoff: usize, amount: usize) -> (result: Expr<()>)
    requires
        cutoff + size(expression@) <= usize::MAX,
        max_bound_index(expression@) + amount <= usize::MAX,
    ensures
        result@ == shifted(expression@, cutoff as int, amount as int),
    decreases *expression, 0nat,
{
    proof {
        lemma_size_positive_everywhere();
    }
    let raw = match expression.raw() {
        RawExpr::BoundNatural(index) => if index.0 >= cutoff { RawExpr::BoundNatural(DeBruijnIndex(index.0 + amount)) } else { RawExpr::BoundNatural(*index) },
        RawExpr::StandardBasis { index, dimension } => RawExpr::StandardBasis { index: shift_from(index, cutoff, amount), dimension: *dimension },
        RawExpr::Type(ty) => RawExpr::Type(shift_from_type(ty, cutoff, amount)),
        RawExpr::Matrix(matrix) => RawExpr::Matrix(Matrix { rows: matrix.rows, cols: matrix.cols, elements: shift_from_list(&matrix.elements, cutoff, amount) }),
        RawExpr::Monop(op, x) => RawExpr::Monop(*op, shift_from(x, cutoff, amount)),
        RawExpr::Binop(op, x, y) => RawExpr::Binop(*op, shift_from(x, cutoff, amount), shift_from(y, cutoff, amount)),
        RawExpr::Triop(op, x, y, z) => RawExpr::Triop(*op, shift_from(x, cutoff, amount), shift_from(y, cutoff, amount), shift_from(z, cutoff, amount)),
        RawExpr::Finop(op, operands) => RawExpr::Finop(*op, shift_from_list(operands, cutoff, amount)),
        RawExpr::CmpChain(chain) => {
            proof {
                lemma_comparison_chain_measures(chain.start@, comparison_views(chain.assertions@));
            }
            RawExpr::CmpChain(CmpChain { start: shift_from(&chain.start, cutoff, amount), assertions: shift_from_comparisons(&chain.assertions, cutoff, amount) })
        },
        RawExpr::LogicChain(chain) => {
            proof {
                lemma_logic_chain_measures(chain.start@, logic_views(chain.assertions@));
            }
            RawExpr::LogicChain(LogicChain { start: shift_from(&chain.start, cutoff, amount), assertions: shift_from_logic(&chain.assertions, cutoff, amount) })
        },
        RawExpr::Seqop(op, range, body) => RawExpr::Seqop(*op, Range { index_variable: range.index_variable.duplicate(), from: shift_from(&range.from, cutoff, amount), to: shift_from(&range.to, cutoff, amount) }, shift_from(body, cutoff, amount)),
        RawExpr::SetComprehension { variable: bound_variable, domain, predicate } => RawExpr::SetComprehension { variable: bound_variable.duplicate(), domain: shift_from_type(domain, cutoff, amount), predicate: shift_from(predicate, cutoff, amount) },
        _ => {
            return crate::deep_clone::deep_clone(expression);
        },
    };
    Expr::new(raw)
}

/// `shift_from` over the dimension expressions of a type.
pub fn shift_from_type(ty: &TypeExpr<()>, cutoff: usize, amount: usize) -> (result: TypeExpr<()>)
    requires
        cutoff + size(ExprView::Type(type_view(*ty))) <= usize::MAX,
        max_bound_index(ExprView::Type(type_view(*ty))) + amount <= usize::MAX,
    ensures
        type_view(result) == shifted_type(type_view(*ty), cutoff as int, amount as int),
    decreases *ty, 0nat,
{
    proof {
        lemma_type_measures(type_view(*ty));
    }
    match ty {
        TypeExpr::Matrix(x, y) => TypeExpr::Matrix(shift_from(x, cutoff, amount), shift_from(y, cutoff, amount)),
        TypeExpr::Sequence(x, y) => TypeExpr::Sequence(shift_from(x, cutoff + 1, amount), shift_from(y, cutoff, amount)),
        TypeExpr::SetOf(inner) => {
            let inner: &TypeExpr<()> = inner;
            TypeExpr::SetOf(Box::new(shift_from_type(inner, cutoff, amount)))
        },
        TypeExpr::Bool => TypeExpr::Bool,
        TypeExpr::Nat => TypeExpr::Nat,
        TypeExpr::Int => TypeExpr::Int,
        TypeExpr::Real => TypeExpr::Real,
    }
}

/// `shift_from` over a list of trees.
pub fn shift_from_list(expressions: &Vec<Expr<()>>, cutoff: usize, amount: usize) -> (result: Vec<Expr<()>>)
    requires
        cutoff + size(ExprView::Finop(Finop::Plus, views(expressions@))) <= usize::MAX,
        max_bound_index(ExprView::Finop(Finop::Plus, views(expressions@))) + amount <= usize::MAX,
    ensures
        views(result@) == shifted_seq(views(expressions@), cutoff as int, amount as int),
    decreases expressions@, 0nat,
{
    let ghost all = views(expressions@);
    proof {
        lemma_views(expressions@);
    }
    let mut result: Vec<Expr<()>> = Vec::new();
    let mut i: usize = 0;
    while i < expressions.len()
        invariant
            i <= expressions.len(),
            all == views(expressions@),
            all.len() == expressions.len(),
            forall|j: int| 0 <= j < expressions.len() ==> #[trigger] all[j] == expressions@[j]@,
            cutoff + size(ExprView::Finop(Finop::Plus, all)) <= usize::MAX,
            max_bound_index(ExprView::Finop(Finop::Plus, all)) + amount <= usize::MAX,
            views(result@) == shifted_seq(all.take(i as int), cutoff as int, amount as int),
        decreases expressions.len() - i,
    {
        proof {
            assert(all.take(i + 1).drop_last() =~= all.take(i as int));
            assert(decreases_to!(expressions@ => expressions@[i as int]));
            lemma_member_size(all, i as int);
        }
        let ghost before = result@;
        result.push(shift_from(&expressions[i], cutoff, amount));
        proof {
            assert(result@.drop_last() =~= before);
        }
        i = i + 1;
    }
    proof {
        assert(all.take(expressions.len() as int) =~= all);
    }
    result
}

/// `shift_from` over the trees of a list of links.
pub fn shift_from_comparisons(links: &Vec<(Cmp, Expr<()>)>, cutoff: usize, amount: usize) -> (result: Vec<(Cmp, Expr<()>)>)
    requires
        cutoff + size(ExprView::CmpChain(Box::new(ExprView::Hole), comparison_views(links@))) <= usize::MAX,
        max_bound_index(ExprView::CmpChain(Box::new(ExprView::Hole), comparison_views(links@))) + amount <= usize::MAX,
    ensures
        comparison_views(result@) == shifted_links(comparison_views(links@), cutoff as int, amount as int),
    decreases links@, 0nat,
{
    let ghost all = comparison_views(links@);
    proof {
        lemma_comparison_views(links@);
    }
    let mut result: Vec<(Cmp, Expr<()>)> = Vec::new();
    let mut i: usize = 0;
    while i < links.len()
        invariant
            i <= links.len(),
            all == comparison_views(links@),
            all.len() == links.len(),
            forall|j: int| 0 <= j < links.len() ==> #[trigger] all[j] == (links@[j].0, links@[j].1@),
            cutoff + size(ExprView::CmpChain(Box::new(ExprView::Hole), all)) <= usize::MAX,
            max_bound_index(ExprView::CmpChain(Box::new(ExprView::Hole), all)) + amount <= usize::MAX,
            comparison_views(result@) == shifted_links(all.take(i as int), cutoff as int, amount as int),
        decreases links.len() - i,
    {
        proof {
            assert(all.take(i + 1).drop_last() =~= all.take(i as int));
            assert(decreases_to!(links@ => links@[i as int]));
            lemma_link_member_size(all, i as int);
        }
        let ghost before = result@;
        let (op, x) = &links[i];
        result.push((*op, shift_from(x, cutoff, amount)));
        proof {
            assert(result@.drop_last() =~= before);
        }
        i = i + 1;
    }
    proof {
        assert(all.take(links.len() as int) =~= all);
    }
    result
}

/// `shift_from` over the trees of a list of links.
pub fn shift_from_logic(links: &Vec<(Logic, Expr<()>)>, cutoff: usize, amount: usize) -> (result: Vec<(Logic, Expr<()>)>)
    requires
        cutoff + size(ExprView::LogicChain(Box::new(ExprView::Hole), logic_views(links@))) <= usize::MAX,
        max_bound_index(ExprView::LogicChain(Box::new(ExprView::Hole), logic_views(links@))) + amount <= usize::MAX,
    ensures
        logic_views(result@) == shifted_links(logic_views(links@), cutoff as int, amount as int),
    decreases links@, 0nat,
{
    let ghost all = logic_views(links@);
    proof {
        lemma_logic_views(links@);
    }
    let mut result: Vec<(Logic, Expr<()>)> = Vec::new();
    let mut i: usize = 0;
    while i < links.len()
        invariant
            i <= links.len(),
            all == logic_views(links@),
            all.len() == links.len(),
            forall|j: int| 0 <= j < links.len() ==> #[trigger] all[j] == (links@[j].0, links@[j].1@),
            cutoff + size(ExprView::LogicChain(Box::new(ExprView::Hole), all)) <= usize::MAX,
            max_bound_index(ExprView::LogicChain(Box::new(ExprView::Hole), all)) + amount <= usize::MAX,
            logic_views(result@) == shifted_links(all.take(i as int), cutoff as int, amount as int),
        decreases links.len() - i,
    {
        proof {
            assert(all.take(i + 1).drop_last() =~= all.take(i as int));
            assert(decreases_to!(links@ => links@[i as int]));
            lemma_link_member_size(all, i as int);
        }
        let ghost before = result@;
        let (op, x) = &links[i];
        result.push((*op, shift_from(x, cutoff, amount)));
        proof {
            assert(result@.drop_last() =~= before);
        }
        i = i + 1;
    }
    proof {
        assert(all.take(links.len() as int) =~= all);
    }
    result
}

/// The tree with every occurrence of `v` replaced by `r`, shifted past the sequence binders it moves under.
pub open spec fn abstracted(e: ExprView, v: VariableView, r: ExprView, depth: int) -> ExprView
    decreases e, 0nat,
{
    match e {
        ExprView::Variable(x) => if x == v { shifted(r, 0, depth) } else { e },
        ExprView::StandardBasis(index, d) => ExprView::StandardBasis(Box::new(abstracted(*index, v, r, depth)), d),
        ExprView::Type(t) => ExprView::Type(abstracted_type(t, v, r, depth)),
        ExprView::Matrix(rows, cols, elements) => ExprView::Matrix(rows, cols, abstracted_seq(elements, v, r, depth)),
        ExprView::Monop(op, x) => ExprView::Monop(op, Box::new(abstracted(*x, v, r, depth))),
        ExprView::Binop(op, x, y) => ExprView::Binop(op, Box::new(abstracted(*x, v, r, depth)), Box::new(abstracted(*y, v, r, depth))),
        ExprView::Triop(op, x, y, z) => ExprView::Triop(op, Box::new(abstracted(*x, v, r, depth)), Box::new(abstracted(*y, v, r, depth)), Box::new(abstracted(*z, v, r, depth))),
        ExprView::Finop(op, operands) => ExprView::Finop(op, abstracted_seq(operands, v, r, depth)),
        ExprView::CmpChain(start, links) => ExprView::CmpChain(Box::new(abstracted(*start, v, r, depth)), abstracted_links(links, v, r, depth)),
        ExprView::LogicChain(start, links) => ExprView::LogicChain(Box::new(abstracted(*start, v, r, depth)), abstracted_links(links, v, r, depth)),
        ExprView::Seqop(op, bv, from, to, body) => ExprView::Seqop(op, bv, Box::new(abstracted(*from, v, r, depth)), Box::new(abstracted(*to, v, r, depth)), Box::new(abstracted(*body, v, r, depth))),
        ExprView::SetComprehension(bv, domain, predicate) => ExprView::SetComprehension(bv, abstracted_type(domain, v, r, depth), Box::new(abstracted(*predicate, v, r, depth))),
        _ => e,
    }
}

/// `abstracted` over the dimension expressions of a type.
pub open spec fn abstracted_type(t: TypeView, v: VariableView, r: ExprView, depth: int) -> TypeView
    decreases t, 0nat,
{
    match t {
        TypeView::Matrix(x, y) => TypeView::Matrix(Box::new(abstracted(*x, v, r, depth)), Box::new(abstracted(*y, v, r, depth))),
        TypeView::Sequence(x, y) => TypeView::Sequence(Box::new(abstracted(*x, v, r, depth + 1)), Box::new(abstracted(*y, v, r, depth))),
        TypeView::SetOf(inner) => TypeView::SetOf(Box::new(abstracted_type(*inner, v, r, depth))),
        _ => t,
    }
}

/// `abstracted` over a list of trees.
pub open spec fn abstracted_seq(s: Seq<ExprView>, v: VariableView, r: ExprView, depth: int) -> Seq<ExprView>
    decreases s, 1nat,
{
    if s.len() == 0 {
        s
    } else {
        abstracted_seq(s.drop_last(), v, r, depth).push(abstracted(s.last(), v, r, depth))
    }
}

/// `abstracted` over the trees of a list of links.
pub open spec fn abstracted_links<O>(s: Seq<(O, ExprView)>, v: VariableView, r: ExprView, depth: int) -> Seq<(O, ExprView)>
    decreases s, 1nat,
{
    if s.len() == 0 {
        s
    } else {
        abstracted_links(s.drop_last(), v, r, depth).push((s.last().0, abstracted(s.last().1, v, r, depth)))
    }
}

/// Replaces a variable by an expression under `depth` enclosing sequence binders.
pub fn abstract_variable(expression: &Expr<()>, variable: &Variable, replacement: &Expr<()>, depth: usize) -> (result: Expr<()>)
    requires
        depth + size(expression@) <= usize::MAX,
        size(replacement@) <= usize::MAX,
        max_bound_index(replacement@) + depth + size(expression@) <= usize::MAX,
    ensures
        result@ == abstracted(expression@, variable.view_variable(), replacement@, depth as int),
    decreases *expression, 0nat,
{
    proof {
        lemma_size_positive_everywhere();
    }
    let raw = match expression.raw() {
        RawExpr::Variable(x) => if x.same(variable) { return shift_from(replacement, 0, depth); } else { RawExpr::Variable(x.duplicate()) },
        RawExpr::StandardBasis { index, dimension } => RawExpr::StandardBasis { index: abstract_variable(index, variable, replacement, depth), dimension: *dimension },
        RawExpr::Type(ty) => RawExpr::Type(abstract_variable_type(ty, variable, replacement, depth)),
        RawExpr::Matrix(matrix) => RawExpr::Matrix(Matrix { rows: matrix.rows, cols: matrix.cols, elements: abstract_variable_list(&matrix.elements, variable, replacement, depth) }),
        RawExpr::Monop(op, x) => RawExpr::Monop(*op, abstract_variable(x, variable, replacement, depth)),
        RawExpr::Binop(op, x, y) => RawExpr::Binop(*op, abstract_variable(x, variable, replacement, depth), abstract_variable(y, variable, replacement, depth)),
        RawExpr::Triop(op, x, y, z) => RawExpr::Triop(*op, abstract_variable(x, variable, replacement, depth), abstract_variable(y, variable, replacement, depth), abstract_variable(z, variable, replacement, depth)),
        RawExpr::Finop(op, operands) => RawExpr::Finop(*op, abstract_variable_list(operands, variable, replacement, depth)),
        RawExpr::CmpChain(chain) => {
            proof {
                lemma_comparison_chain_measures(chain.start@, comparison_views(chain.assertions@));
            }
            RawExpr::CmpChain(CmpChain { start: abstract_variable(&chain.start, variable, replacement, depth), assertions: abstract_variable_comparisons(&chain.assertions, variable, replacement, depth) })
        },
        RawExpr::LogicChain(chain) => {
            proof {
                lemma_logic_chain_measures(chain.start@, logic_views(chain.assertions@));
            }
            RawExpr::LogicChain(LogicChain { start: abstract_variable(&chain.start, variable, replacement, depth), assertions: abstract_variable_logic(&chain.assertions, variable, replacement, depth) })
        },
        RawExpr::Seqop(op, range, body) => RawExpr::Seqop(*op, Range { index_variable: range.index_variable.duplicate(), from: abstract_variable(&range.from, variable, replacement, depth), to: abstract_variable(&range.to, variable, replacement, depth) }, abstract_variable(body, variable, replacement, depth)),
        RawExpr::SetComprehension { variable: bound_variable, domain, predicate } => RawExpr::SetComprehension { variable: bound_variable.duplicate(), domain: abstract_variable_type(domain, variable, replacement, depth), predicate: abstract_variable(predicate, variable, replacement, depth) },
        _ => {
            return crate::deep_clone::deep_clone(expression);
        },
    };
    Expr::new(raw)
}

/// `abstract_variable` over the dimension expressions of a type.
pub fn abstract_variable_type(ty: &TypeExpr<()>, variable: &Variable, replacement: &Expr<()>, depth: usize) -> (result: TypeExpr<()>)
    requires
        depth + size(ExprView::Type(type_view(*ty))) <= usize::MAX,
        size(replacement@) <= usize::MAX,
        max_bound_index(replacement@) + depth + size(ExprView::Type(type_view(*ty))) <= usize::MAX,
    ensures
        type_view(result) == abstracted_type(type_view(*ty), variable.view_variable(), replacement@, depth as int),
    decreases *ty, 0nat,
{
    proof {
        lemma_type_measures(type_view(*ty));
    }
    match ty {
        TypeExpr::Matrix(x, y) => TypeExpr::Matrix(abstract_variable(x, variable, replacement, depth), abstract_variable(y, variable, replacement, depth)),
        TypeExpr::Sequence(x, y) => TypeExpr::Sequence(abstract_variable(x, variable, replacement, depth + 1), abstract_variable(y, variable, replacement, depth)),
        TypeExpr::SetOf(inner) => {
            let inner: &TypeExpr<()> = inner;
            TypeExpr::SetOf(Box::new(abstract_variable_type(inner, variable, replacement, depth)))
        },
        TypeExpr::Bool => TypeExpr::Bool,
        TypeExpr::Nat => TypeExpr::Nat,
        TypeExpr::Int => TypeExpr::Int,
        TypeExpr::Real => TypeExpr::Real,
    }
}

/// `abstract_variable` over a list of trees.
pub fn abstract_variable_list(expressions: &Vec<Expr<()>>, variable: &Variable, replacement: &Expr<()>, depth: usize) -> (result: Vec<Expr<()>>)
    requires
        depth + size(ExprView::Finop(Finop::Plus, views(expressions@))) <= usize::MAX,
        size(replacement@) <= usize::MAX,
        max_bound_index(replacement@) + depth + size(ExprView::Finop(Finop::Plus, views(expressions@))) <= usize::MAX,
    ensures
        views(result@) == abstracted_seq(views(expressions@), variable.view_variable(), replacement@, depth as int),
    decreases expressions@, 0nat,
{
    let ghost all = views(expressions@);
    proof {
        lemma_views(expressions@);
    }
    let mut result: Vec<Expr<()>> = Vec::new();
    let mut i: usize = 0;
    while i < expressions.len()
        invariant
            i <= expressions.len(),
            all == views(expressions@),
            all.len() == expressions.len(),
            forall|j: int| 0 <= j < expressions.len() ==> #[trigger] all[j] == expressions@[j]@,
            depth + size(ExprView::Finop(Finop::Plus, all)) <= usize::MAX,
            size(replacement@) <= usize::MAX,
            max_bound_index(replacement@) + depth + size(ExprView::Finop(Finop::Plus, all)) <= usize::MAX,
            views(result@) == abstracted_seq(all.take(i as int), variable.view_variable(), replacement@, depth as int),
        decreases expressions.len() - i,
    {
        proof {
            assert(all.take(i + 1).drop_last() =~= all.take(i as int));
            assert(decreases_to!(expressions@ => expressions@[i as int]));
            lemma_member_size(all, i as int);
        }
        let ghost before = result@;
        result.push(abstract_variable(&expressions[i], variable, replacement, depth));
        proof {
            assert(result@.drop_last() =~= before);
        }
        i = i + 1;
    }
    proof {
        assert(all.take(expressions.len() as int) =~= all);
    }
    result
}

/// `abstract_variable` over the trees of a list of links.
pub fn abstract_variable_comparisons(links: &Vec<(Cmp, Expr<()>)>, variable: &Variable, replacement: &Expr<()>, depth: usize) -> (result: Vec<(Cmp, Expr<()>)>)
    requires
        depth + size(ExprView::CmpChain(Box::new(ExprView::Hole), comparison_views(links@))) <= usize::MAX,
        size(replacement@) <= usize::MAX,
        max_bound_index(replacement@) + depth + size(ExprView::CmpChain(Box::new(ExprView::Hole), comparison_views(links@))) <= usize::MAX,
    ensures
        comparison_views(result@) == abstracted_links(comparison_views(links@), variable.view_variable(), replacement@, depth as int),
    decreases links@, 0nat,
{
    let ghost all = comparison_views(links@);
    proof {
        lemma_comparison_views(links@);
    }
    let mut result: Vec<(Cmp, Expr<()>)> = Vec::new();
    let mut i: usize = 0;
    while i < links.len()
        invariant
            i <= links.len(),
            all == comparison_views(links@),
            all.len() == links.len(),
            forall|j: int| 0 <= j < links.len() ==> #[trigger] all[j] == (links@[j].0, links@[j].1@),
            depth + size(ExprView::CmpChain(Box::new(ExprView::Hole), all)) <= usize::MAX,
            size(replacement@) <= usize::MAX,
            max_bound_index(replacement@) + depth + size(ExprView::CmpChain(Box::new(ExprView::Hole), all)) <= usize::MAX,
            comparison_views(result@) == abstracted_links(all.take(i as int), variable.view_variable(), replacement@, depth as int),
        decreases links.len() - i,
    {
        proof {
            assert(all.take(i + 1).drop_last() =~= all.take(i as int));
            assert(decreases_to!(links@ => links@[i as int]));
            lemma_link_member_size(all, i as int);
        }
        let ghost before = result@;
        let (op, x) = &links[i];
        result.push((*op, abstract_variable(x, variable, replacement, depth)));
        proof {
            assert(result@.drop_last() =~= before);
        }
        i = i + 1;
    }
    proof {
        assert(all.take(links.len() as int) =~= all);
    }
    result
}

/// `abstract_variable` over the trees of a list of links.
pub fn abstract_variable_logic(links: &Vec<(Logic, Expr<()>)>, variable: &Variable, replacement: &Expr<()>, depth: usize) -> (result: Vec<(Logic, Expr<()>)>)
    requires
        depth + size(ExprView::LogicChain(Box::new(ExprView::Hole), logic_views(links@))) <= usize::MAX,
        size(replacement@) <= usize::MAX,
        max_bound_index(replacement@) + depth + size(ExprView::LogicChain(Box::new(ExprView::Hole), logic_views(links@))) <= usize::MAX,
    ensures
        logic_views(result@) == abstracted_links(logic_views(links@), variable.view_variable(), replacement@, depth as int),
    decreases links@, 0nat,
{
    let ghost all = logic_views(links@);
    proof {
        lemma_logic_views(links@);
    }
    let mut result: Vec<(Logic, Expr<()>)> = Vec::new();
    let mut i: usize = 0;
    while i < links.len()
        invariant
            i <= links.len(),
            all == logic_views(links@),
            all.len() == links.len(),
            forall|j: int| 0 <= j < links.len() ==> #[trigger] all[j] == (links@[j].0, links@[j].1@),
            depth + size(ExprView::LogicChain(Box::new(ExprView::Hole), all)) <= usize::MAX,
            size(replacement@) <= usize::MAX,
            max_bound_index(replacement@) + depth + size(ExprView::LogicChain(Box::new(ExprView::Hole), all)) <= usize::MAX,
            logic_views(result@) == abstracted_links(all.take(i as int), variable.view_variable(), replacement@, depth as int),
        decreases links.len() - i,
    {
        proof {
            assert(all.take(i + 1).drop_last() =~= all.take(i as int));
            assert(decreases_to!(links@ => links@[i as int]));
            lemma_link_member_size(all, i as int);
        }
        let ghost before = result@;
        let (op, x) = &links[i];
        result.push((*op, abstract_variable(x, variable, replacement, depth)));
        proof {
            assert(result@.drop_last() =~= before);
        }
        i = i + 1;
    }
    proof {
        assert(all.take(links.len() as int) =~= all);
    }
    result
}

/// The tree with the bound natural of index `depth` replaced by `r` (shifted past the binders it moves under) and the indices above it lowered by one.
pub open spec fn opened(e: ExprView, r: ExprView, depth: int) -> ExprView
    decreases e, 0nat,
{
    match e {
        ExprView::BoundNatural(i) => if i == depth { shifted(r, 0, depth) } else if i > depth { ExprView::BoundNatural((i - 1) as usize) } else { e },
        ExprView::StandardBasis(index, d) => ExprView::StandardBasis(Box::new(opened(*index, r, depth)), d),
        ExprView::Type(t) => ExprView::Type(opened_type(t, r, depth)),
        ExprView::Matrix(rows, cols, elements) => ExprView::Matrix(rows, cols, opened_seq(elements, r, depth)),
        ExprView::Monop(op, x) => ExprView::Monop(op, Box::new(opened(*x, r, depth))),
        ExprView::Binop(op, x, y) => ExprView::Binop(op, Box::new(opened(*x, r, depth)), Box::new(opened(*y, r, depth))),
        ExprView::Triop(op, x, y, z) => ExprView::Triop(op, Box::new(opened(*x, r, depth)), Box::new(opened(*y, r, depth)), Box::new(opened(*z, r, depth))),
        ExprView::Finop(op, operands) => ExprView::Finop(op, opened_seq(operands, r, depth)),
        ExprView::CmpChain(start, links) => ExprView::CmpChain(Box::new(opened(*start, r, depth)), opened_links(links, r, depth)),
        ExprView::LogicChain(start, links) => ExprView::LogicChain(Box::new(opened(*start, r, depth)), opened_links(links, r, depth)),
        ExprView::Seqop(op, bv, from, to, body) => ExprView::Seqop(op, bv, Box::new(opened(*from, r, depth)), Box::new(opened(*to, r, depth)), Box::new(opened(*body, r, depth))),
        ExprView::SetComprehension(bv, domain, predicate) => ExprView::SetComprehension(bv, opened_type(domain, r, depth), Box::new(opened(*predicate, r, depth))),
        _ => e,
    }
}

/// `opened` over the dimension expressions of a type.
pub open spec fn opened_type(t: TypeView, r: ExprView, depth: int) -> TypeView
    decreases t, 0nat,
{
    match t {
        TypeView::Matrix(x, y) => TypeView::Matrix(Box::new(opened(*x, r, depth)), Box::new(opened(*y, r, depth))),
        TypeView::Sequence(x, y) => TypeView::Sequence(Box::new(opened(*x, r, depth + 1)), Box::new(opened(*y, r, depth))),
        TypeView::SetOf(inner) => TypeView::SetOf(Box::new(opened_type(*inner, r, depth))),
        _ => t,
    }
}

/// `opened` over a list of trees.
pub open spec fn opened_seq(s: Seq<ExprView>, r: ExprView, depth: int) -> Seq<ExprView>
    decreases s, 1nat,
{
    if s.len() == 0 {
        s
    } else {
        opened_seq(s.drop_last(), r, depth).push(opened(s.last(), r, depth))
    }
}

/// `opened` over the trees of a list of links.
pub open spec fn opened_links<O>(s: Seq<(O, ExprView)>, r: ExprView, depth: int) -> Seq<(O, ExprView)>
    decreases s, 1nat,
{
    if s.len() == 0 {
        s
    } else {
        opened_links(s.drop_last(), r, depth).push((s.last().0, opened(s.last().1, r, depth)))
    }
}

/// Substitutes for the bound natural of index `depth`.
pub fn open_bound(expression: &Expr<()>, replacement: &Expr<()>, depth: usize) -> (result: Expr<()>)
    requires
        depth + size(expression@) <= usize::MAX,
        size(replacement@) <= usize::MAX,
        max_bound_index(replacement@) + depth + size(expression@) <= usize::MAX,
    ensures
        result@ == opened(expression@, replacement@, depth as int),
    decreases *expression, 0nat,
{
    proof {
        lemma_size_positive_everywhere();
    }
    let raw = match expression.raw() {
        RawExpr::BoundNatural(index) => if index.0 == depth { return shift_from(replacement, 0, depth); } else if index.0 > depth { RawExpr::BoundNatural(DeBruijnIndex(index.0 - 1)) } else { RawExpr::BoundNatural(*index) },
        RawExpr::StandardBasis { index, dimension } => RawExpr::StandardBasis { index: open_bound(index, replacement, depth), dimension: *dimension },
        RawExpr::Type(ty) => RawExpr::Type(open_bound_type(ty, replacement, depth)),
        RawExpr::Matrix(matrix) => RawExpr::Matrix(Matrix { rows: matrix.rows, cols: matrix.cols, elements: open_bound_list(&matrix.elements, replacement, depth) }),
        RawExpr::Monop(op, x) => RawExpr::Monop(*op, open_bound(x, replacement, depth)),
        RawExpr::Binop(op, x, y) => RawExpr::Binop(*op, open_bound(x, replacement, depth), open_bound(y, replacement, depth)),
        RawExpr::Triop(op, x, y, z) => RawExpr::Triop(*op, open_bound(x, replacement, depth), open_bound(y, replacement, depth), open_bound(z, replacement, depth)),
        RawExpr::Finop(op, operands) => RawExpr::Finop(*op, open_bound_list(operands, replacement, depth)),
        RawExpr::CmpChain(chain) => {
            proof {
                lemma_comparison_chain_measures(chain.start@, comparison_views(chain.assertions@));
            }
            RawExpr::CmpChain(CmpChain { start: open_bound(&chain.start, replacement, depth), assertions: open_bound_comparisons(&chain.assertions, replacement, depth) })
        },
        RawExpr::LogicChain(chain) => {
            proof {
                lemma_logic_chain_measures(chain.start@, logic_views(chain.assertions@));
            }
            RawExpr::LogicChain(LogicChain { start: open_bound(&chain.start, replacement, depth), assertions: open_bound_logic(&chain.assertions, replacement, depth) })
        },
        RawExpr::Seqop(op, range, body) => RawExpr::Seqop(*op, Range { index_variable: range.index_variable.duplicate(), from: open_bound(&range.from, replacement, depth), to: open_bound(&range.to, replacement, depth) }, open_bound(body, replacement, depth)),
        RawExpr::SetComprehension { variable: bound_variable, domain, predicate } => RawExpr::SetComprehension { variable: bound_variable.duplicate(), domain: open_bound_type(domain, replacement, depth), predicate: open_bound(predicate, replacement, depth) },
        _ => {
            return crate::deep_clone::deep_clone(expression);
        },
    };
    Expr::new(raw)
}

/// `open_bound` over the dimension expressions of a type.
pub fn open_bound_type(ty: &TypeExpr<()>, replacement: &Expr<()>, depth: usize) -> (result: TypeExpr<()>)
    requires
        depth + size(ExprView::Type(type_view(*ty))) <= usize::MAX,
        size(replacement@) <= usize::MAX,
        max_bound_index(replacement@) + depth + size(ExprView::Type(type_view(*ty))) <= usize::MAX,
    ensures
        type_view(result) == opened_type(type_view(*ty), replacement@, depth as int),
    decreases *ty, 0nat,
{
    proof {
        lemma_type_measures(type_view(*ty));
    }
    match ty {
        TypeExpr::Matrix(x, y) => TypeExpr::Matrix(open_bound(x, replacement, depth), open_bound(y, replacement, depth)),
        TypeExpr::Sequence(x, y) => TypeExpr::Sequence(open_bound(x, replacement, depth + 1), open_bound(y, replacement, depth)),
        TypeExpr::SetOf(inner) => {
            let inner: &TypeExpr<()> = inner;
            TypeExpr::SetOf(Box::new(open_bound_type(inner, replacement, depth)))
        },
        TypeExpr::Bool => TypeExpr::Bool,
        TypeExpr::Nat => TypeExpr::Nat,
        TypeExpr::Int => TypeExpr::Int,
        TypeExpr::Real => TypeExpr::Real,
    }
}

/// `open_bound` over a list of trees.
pub fn open_bound_list(expressions: &Vec<Expr<()>>, replacement: &Expr<()>, depth: usize) -> (result: Vec<Expr<()>>)
    requires
        depth + size(ExprView::Finop(Finop::Plus, views(expressions@))) <= usize::MAX,
        size(replacement@) <= usize::MAX,
        max_bound_index(replacement@) + depth + size(ExprView::Finop(Finop::Plus, views(expressions@))) <= usize::MAX,
    ensures
        views(result@) == opened_seq(views(expressions@), replacement@, depth as int),
    decreases expressions@, 0nat,
{
    let ghost all = views(expressions@);
    proof {
        lemma_views(expressions@);
    }
    let mut result: Vec<Expr<()>> = Vec::new();
    let mut i: usize = 0;
    while i < expressions.len()
        invariant
            i <= expressions.len(),
            all == views(expressions@),
            all.len() == expressions.len(),
            forall|j: int| 0 <= j < expressions.len() ==> #[trigger] all[j] == expressions@[j]@,
            depth + size(ExprView::Finop(Finop::Plus, all)) <= usize::MAX,
            size(replacement@) <= usize::MAX,
            max_bound_index(replacement@) + depth + size(ExprView::Finop(Finop::Plus, all)) <= usize::MAX,
            views(result@) == opened_seq(all.take(i as int), replacement@, depth as int),
        decreases expressions.len() - i,
    {
        proof {
            assert(all.take(i + 1).drop_last() =~= all.take(i as int));
            assert(decreases_to!(expressions@ => expressions@[i as int]));
            lemma_member_size(all, i as int);
        }
        let ghost before = result@;
        result.push(open_bound(&expressions[i], replacement, depth));
        proof {
            assert(result@.drop_last() =~= before);
        }
        i = i + 1;
    }
    proof {
        assert(all.take(expressions.len() as int) =~= all);
    }
    result
}

/// `open_bound` over the trees of a list of links.
pub fn open_bound_comparisons(links: &Vec<(Cmp, Expr<()>)>, replacement: &Expr<()>, depth: usize) -> (result: Vec<(Cmp, Expr<()>)>)
    requires
        depth + size(ExprView::CmpChain(Box::new(ExprView::Hole), comparison_views(links@))) <= usize::MAX,
        size(replacement@) <= usize::MAX,
        max_bound_index(replacement@) + depth + size(ExprView::CmpChain(Box::new(ExprView::Hole), comparison_views(links@))) <= usize::MAX,
    ensures
        comparison_views(result@) == opened_links(comparison_views(links@), replacement@, depth as int),
    decreases links@, 0nat,
{
    let ghost all = comparison_views(links@);
    proof {
        lemma_comparison_views(links@);
    }
    let mut result: Vec<(Cmp, Expr<()>)> = Vec::new();
    let mut i: usize = 0;
    while i < links.len()
        invariant
            i <= links.len(),
            all == comparison_views(links@),
            all.len() == links.len(),
            forall|j: int| 0 <= j < links.len() ==> #[trigger] all[j] == (links@[j].0, links@[j].1@),
            depth + size(ExprView::CmpChain(Box::new(ExprView::Hole), all)) <= usize::MAX,
            size(replacement@) <= usize::MAX,
            max_bound_index(replacement@) + depth + size(ExprView::CmpChain(Box::new(ExprView::Hole), all)) <= usize::MAX,
            comparison_views(result@) == opened_links(all.take(i as int), replacement@, depth as int),
        decreases links.len() - i,
    {
        proof {
            assert(all.take(i + 1).drop_last() =~= all.take(i as int));
            assert(decreases_to!(links@ => links@[i as int]));
            lemma_link_member_size(all, i as int);
        }
        let ghost before = result@;
        let (op, x) = &links[i];
        result.push((*op, open_bound(x, replacement, depth)));
        proof {
            assert(result@.drop_last() =~= before);
        }
        i = i + 1;
    }
    proof {
        assert(all.take(links.len() as int) =~= all);
    }
    result
}

/// `open_bound` over the trees of a list of links.
pub fn open_bound_logic(links: &Vec<(Logic, Expr<()>)>, replacement: &Expr<()>, depth: usize) -> (result: Vec<(Logic, Expr<()>)>)
    requires
        depth + size(ExprView::LogicChain(Box::new(ExprView::Hole), logic_views(links@))) <= usize::MAX,
        size(replacement@) <= usize::MAX,
        max_bound_index(replacement@) + depth + size(ExprView::LogicChain(Box::new(ExprView::Hole), logic_views(links@))) <= usize::MAX,
    ensures
        logic_views(result@) == opened_links(logic_views(links@), replacement@, depth as int),
    decreases links@, 0nat,
{
    let ghost all = logic_views(links@);
    proof {
        lemma_logic_views(links@);
    }
    let mut result: Vec<(Logic, Expr<()>)> = Vec::new();
    let mut i: usize = 0;
    while i < links.len()
        invariant
            i <= links.len(),
            all == logic_views(links@),
            all.len() == links.len(),
            forall|j: int| 0 <= j < links.len() ==> #[trigger] all[j] == (links@[j].0, links@[j].1@),
            depth + size(ExprView::LogicChain(Box::new(ExprView::Hole), all)) <= usize::MAX,
            size(replacement@) <= usize::MAX,
            max_bound_index(replacement@) + depth + size(ExprView::LogicChain(Box::new(ExprView::Hole), all)) <= usize::MAX,
            logic_views(result@) == opened_links(all.take(i as int), replacement@, depth as int),
        decreases links.len() - i,
    {
        proof {
            assert(all.take(i + 1).drop_last() =~= all.take(i as int));
            assert(decreases_to!(links@ => links@[i as int]));
            lemma_link_member_size(all, i as int);
        }
        let ghost before = result@;
        let (op, x) = &links[i];
        result.push((*op, open_bound(x, replacement, depth)));
        proof {
            assert(result@.drop_last() =~= before);
        }
        i = i + 1;
    }
    proof {
        assert(all.take(links.len() as int) =~= all);
    }
    result
}

/// Whether a bound natural refers past the `depth` binders that enclose it in the tree.
pub open spec fn has_unbound(e: ExprView, depth: int) -> bool
    decreases e, 0nat,
{
    match e {
        ExprView::BoundNatural(i) => i >= depth,
        ExprView::StandardBasis(index, d) => has_unbound(*index, depth),
        ExprView::Type(t) => has_unbound_type(t, depth),
        ExprView::Matrix(rows, cols, elements) => has_unbound_seq(elements, depth),
        ExprView::Monop(op, x) => has_unbound(*x, depth),
        ExprView::Binop(op, x, y) => has_unbound(*x, depth) || has_unbound(*y, depth),
        ExprView::Triop(op, x, y, z) => has_unbound(*x, depth) || has_unbound(*y, depth) || has_unbound(*z, depth),
        ExprView::Finop(op, operands) => has_unbound_seq(operands, depth),
        ExprView::CmpChain(start, links) => has_unbound(*start, depth) || has_unbound_links(links, depth),
        ExprView::LogicChain(start, links) => has_unbound(*start, depth) || has_unbound_links(links, depth),
        ExprView::Seqop(op, bv, from, to, body) => has_unbound(*from, depth) || has_unbound(*to, depth) || has_unbound(*body, depth),
        ExprView::SetComprehension(bv, domain, predicate) => has_unbound_type(domain, depth) || has_unbound(*predicate, depth),
        _ => false,
    }
}

/// `has_unbound` over the dimension expressions of a type.
pub open spec fn has_unbound_type(t: TypeView, depth: int) -> bool
    decreases t, 0nat,
{
    match t {
        TypeView::Matrix(x, y) => has_unbound(*x, depth) || has_unbound(*y, depth),
        TypeView::Sequence(x, y) => has_unbound(*x, depth + 1) || has_unbound(*y, depth),
        TypeView::SetOf(inner) => has_unbound_type(*inner, depth),
        _ => false,
    }
}

/// `has_unbound` over a list of trees.
pub open spec fn has_unbound_seq(s: Seq<ExprView>, depth: int) -> bool
    decreases s, 1nat,
{
    if s.len() == 0 {
        false
    } else {
        has_unbound_seq(s.drop_last(), depth) || has_unbound(s.last(), depth)
    }
}

/// `has_unbound` over the trees of a list of links.
pub open spec fn has_unbound_links<O>(s: Seq<(O, ExprView)>, depth: int) -> bool
    decreases s, 1nat,
{
    if s.len() == 0 {
        false
    } else {
        has_unbound_links(s.drop_last(), depth) || has_unbound(s.last().1, depth)
    }
}

/// Whether a bound natural escapes `depth` enclosing binders.
#[verifier::spinoff_prover]
pub fn unbound_natural_in(expression: &Expr<()>, depth: usize) -> (found: bool)
    requires
        depth + size(expression@) <= usize::MAX,
    ensures
        found == has_unbound(expression@, depth as int),
    decreases *expression, 0nat,
{
    proof {
        lemma_size_positive_everywhere();
    }
    match expression.raw() {
        RawExpr::BoundNatural(index) => index.0 >= depth,
        RawExpr::StandardBasis { index, .. } => unbound_natural_in(index, depth),
        RawExpr::Type(ty) => unbound_natural_in_type(ty, depth),
        RawExpr::Matrix(matrix) => unbound_natural_in_list(&matrix.elements, depth),
        RawExpr::Monop(_, x) => unbound_natural_in(x, depth),
        RawExpr::Binop(_, x, y) => unbound_natural_in(x, depth) || unbound_natural_in(y, depth),
        RawExpr::Triop(_, x, y, z) => unbound_natural_in(x, depth) || unbound_natural_in(y, depth) || unbound_natural_in(z, depth),
        RawExpr::Finop(_, operands) => unbound_natural_in_list(operands, depth),
        RawExpr::CmpChain(chain) => {
            proof {
                lemma_comparison_chain_measures(chain.start@, comparison_views(chain.assertions@));
            }
            unbound_natural_in(&chain.start, depth) || unbound_natural_in_comparisons(&chain.assertions, depth)
        },
        RawExpr::LogicChain(chain) => {
            proof {
                lemma_logic_chain_measures(chain.start@, logic_views(chain.assertions@));
            }
            unbound_natural_in(&chain.start, depth) || unbound_natural_in_logic(&chain.assertions, depth)
        },
        RawExpr::Seqop(_, range, body) => unbound_natural_in(&range.from, depth) || unbound_natural_in(&range.to, depth) || unbound_natural_in(body, depth),
        RawExpr::SetComprehension { domain, predicate, .. } => unbound_natural_in_type(domain, depth) || unbound_natural_in(predicate, depth),
        _ => false,
    }
}

/// `unbound_natural_in` over the dimension expressions of a type.
pub fn unbound_natural_in_type(ty: &TypeExpr<()>, depth: usize) -> (found: bool)
    requires
        depth + size(ExprView::Type(type_view(*ty))) <= usize::MAX,
    ensures
        found == has_unbound_type(type_view(*ty), depth as int),
    decreases *ty, 0nat,
{
    proof {
        lemma_type_measures(type_view(*ty));
    }
    match ty {
        TypeExpr::Matrix(x, y) => unbound_natural_in(x, depth) || unbound_natural_in(y, depth),
        TypeExpr::Sequence(x, y) => unbound_natural_in(x, depth + 1) || unbound_natural_in(y, depth),
        TypeExpr::SetOf(inner) => {
            let inner: &TypeExpr<()> = inner;
            unbound_natural_in_type(inner, depth)
        },
        _ => false,
    }
}

/// `unbound_natural_in` over a list of trees.
pub fn unbound_natural_in_list(expressions: &Vec<Expr<()>>, depth: usize) -> (found: bool)
    requires
        depth + size(ExprView::Finop(Finop::Plus, views(expressions@))) <= usize::MAX,
    ensures
        found == has_unbound_seq(views(expressions@), depth as int),
    decreases expressions@, 0nat,
{
    let ghost all = views(expressions@);
    proof {
        lemma_views(expressions@);
    }
    let mut found = false;
    let mut i: usize = 0;
    while i < expressions.len()
        invariant
            i <= expressions.len(),
            all == views(expressions@),
            all.len() == expressions.len(),
            forall|j: int| 0 <= j < expressions.len() ==> #[trigger] all[j] == expressions@[j]@,
            depth + size(ExprView::Finop(Finop::Plus, all)) <= usize::MAX,
            found == has_unbound_seq(all.take(i as int), depth as int),
        decreases expressions.len() - i,
    {
        proof {
            assert(all.take(i + 1).drop_last() =~= all.take(i as int));
            assert(decreases_to!(expressions@ => expressions@[i as int]));
            lemma_member_size(all, i as int);
        }
        found = found || unbound_natural_in(&expressions[i], depth);
        i = i + 1;
    }
    proof {
        assert(all.take(expressions.len() as int) =~= all);
    }
    found
}

/// `unbound_natural_in` over the trees of a list of links.
pub fn unbound_natural_in_comparisons(links: &Vec<(Cmp, Expr<()>)>, depth: usize) -> (found: bool)
    requires
        depth + size(ExprView::CmpChain(Box::new(ExprView::Hole), comparison_views(links@))) <= usize::MAX,
    ensures
        found == has_unbound_links(comparison_views(links@), depth as int),
    decreases links@, 0nat,
{
    let ghost all = comparison_views(links@);
    proof {
        lemma_comparison_views(links@);
    }
    let mut found = false;
    let mut i: usize = 0;
    while i < links.len()
        invariant
            i <= links.len(),
            all == comparison_views(links@),
            all.len() == links.len(),
            forall|j: int| 0 <= j < links.len() ==> #[trigger] all[j] == (links@[j].0, links@[j].1@),
            depth + size(ExprView::CmpChain(Box::new(ExprView::Hole), all)) <= usize::MAX,
            found == has_unbound_links(all.take(i as int), depth as int),
        decreases links.len() - i,
    {
        proof {
            assert(all.take(i + 1).drop_last() =~= all.take(i as int));
            assert(decreases_to!(links@ => links@[i as int]));
            lemma_link_member_size(all, i as int);
        }
        found = found || unbound_natural_in(&links[i].1, depth);
        i = i + 1;
    }
    proof {
        assert(all.take(links.len() as int) =~= all);
    }
    found
}

/// `unbound_natural_in` over the trees of a list of links.
pub fn unbound_natural_in_logic(links: &Vec<(Logic, Expr<()>)>, depth: usize) -> (found: bool)
    requires
        depth + size(ExprView::LogicChain(Box::new(ExprView::Hole), logic_views(links@))) <= usize::MAX,
    ensures
        found == has_unbound_links(logic_views(links@), depth as int),
    decreases links@, 0nat,
{
    let ghost all = logic_views(links@);
    proof {
        lemma_logic_views(links@);
    }
    let mut found = false;
    let mut i: usize = 0;
    while i < links.len()
        invariant
            i <= links.len(),
            all == logic_views(links@),
            all.len() == links.len(),
            forall|j: int| 0 <= j < links.len() ==> #[trigger] all[j] == (links@[j].0, links@[j].1@),
            depth + size(ExprView::LogicChain(Box::new(ExprView::Hole), all)) <= usize::MAX,
            found == has_unbound_links(all.take(i as int), depth as int),
        decreases links.len() - i,
    {
        proof {
            assert(all.take(i + 1).drop_last() =~= all.take(i as int));
            assert(decreases_to!(links@ => links@[i as int]));
            lemma_link_member_size(all, i as int);
        }
        found = found || unbound_natural_in(&links[i].1, depth);
        i = i + 1;
    }
    proof {
        assert(all.take(links.len() as int) =~= all);
    }
    found
}

/// Whether the tree holds a bound natural.
pub open spec fn has_bound_natural(e: ExprView) -> bool
    decreases e, 0nat,
{
    match e {
        ExprView::BoundNatural(_) => true,
        ExprView::StandardBasis(index, d) => has_bound_natural(*index),
        ExprView::Type(t) => has_bound_natural_type(t),
        ExprView::Matrix(rows, cols, elements) => has_bound_natural_seq(elements),
        ExprView::Monop(op, x) => has_bound_natural(*x),
        ExprView::Binop(op, x, y) => has_bound_natural(*x) || has_bound_natural(*y),
        ExprView::Triop(op, x, y, z) => has_bound_natural(*x) || has_bound_natural(*y) || has_bound_natural(*z),
        ExprView::Finop(op, operands) => has_bound_natural_seq(operands),
        ExprView::CmpChain(start, links) => has_bound_natural(*start) || has_bound_natural_links(links),
        ExprView::LogicChain(start, links) => has_bound_natural(*start) || has_bound_natural_links(links),
        ExprView::Seqop(op, bv, from, to, body) => has_bound_natural(*from) || has_bound_natural(*to) || has_bound_natural(*body),
        ExprView::SetComprehension(bv, domain, predicate) => has_bound_natural_type(domain) || has_bound_natural(*predicate),
        _ => false,
    }
}

/// `has_bound_natural` over the dimension expressions of a type.
pub open spec fn has_bound_natural_type(t: TypeView) -> bool
    decreases t, 0nat,
{
    match t {
        TypeView::Matrix(x, y) => has_bound_natural(*x) || has_bound_natural(*y),
        TypeView::Sequence(x, y) => has_bound_natural(*x) || has_bound_natural(*y),
        TypeView::SetOf(inner) => has_bound_natural_type(*inner),
        _ => false,
    }
}

/// `has_bound_natural` over a list of trees.
pub open spec fn has_bound_natural_seq(s: Seq<ExprView>) -> bool
    decreases s, 1nat,
{
    if s.len() == 0 {
        false
    } else {
        has_bound_natural_seq(s.drop_last()) || has_bound_natural(s.last())
    }
}

/// `has_bound_natural` over the trees of a list of links.
pub open spec fn has_bound_natural_links<O>(s: Seq<(O, ExprView)>) -> bool
    decreases s, 1nat,
{
    if s.len() == 0 {
        false
    } else {
        has_bound_natural_links(s.drop_last()) || has_bound_natural(s.last().1)
    }
}

/// Whether the tree holds a bound natural.
#[verifier::spinoff_prover]
pub fn expression_contains_bound_natural<Metadata>(expression: &Expr<Metadata>) -> (found: bool)
    ensures
        found == has_bound_natural(expression@),
    decreases *expression, 0nat,
{
    proof {
        lemma_size_positive_everywhere();
    }
    match expression.raw() {
        RawExpr::BoundNatural(_) => true,
        RawExpr::StandardBasis { index, .. } => expression_contains_bound_natural(index),
        RawExpr::Type(ty) => expression_contains_bound_natural_type(ty),
        RawExpr::Matrix(matrix) => expression_contains_bound_natural_list(&matrix.elements),
        RawExpr::Monop(_, x) => expression_contains_bound_natural(x),
        RawExpr::Binop(_, x, y) => expression_contains_bound_natural(x) || expression_contains_bound_natural(y),
        RawExpr::Triop(_, x, y, z) => expression_contains_bound_natural(x) || expression_contains_bound_natural(y) || expression_contains_bound_natural(z),
        RawExpr::Finop(_, operands) => expression_contains_bound_natural_list(operands),
        RawExpr::CmpChain(chain) => {
            proof {
                lemma_comparison_chain_measures(chain.start@, comparison_views(chain.assertions@));
            }
            expression_contains_bound_natural(&chain.start) || expression_contains_bound_natural_comparisons(&chain.assertions)
        },
        RawExpr::LogicChain(chain) => {
            proof {
                lemma_logic_chain_measures(chain.start@, logic_views(chain.assertions@));
            }
            expression_contains_bound_natural(&chain.start) || expression_contains_bound_natural_logic(&chain.assertions)
        },
        RawExpr::Seqop(_, range, body) => expression_contains_bound_natural(&range.from) || expression_contains_bound_natural(&range.to) || expression_contains_bound_natural(body),
        RawExpr::SetComprehension { domain, predicate, .. } => expression_contains_bound_natural_type(domain) || expression_contains_bound_natural(predicate),
        _ => false,
    }
}

/// `expression_contains_bound_natural` over the dimension expressions of a type.
pub fn expression_contains_bound_natural_type<Metadata>(ty: &TypeExpr<Metadata>) -> (found: bool)
    ensures
        found == has_bound_natural_type(type_view(*ty)),
    decreases *ty, 0nat,
{
    proof {
        lemma_type_measures(type_view(*ty));
    }
    match ty {
        TypeExpr::Matrix(x, y) => expression_contains_bound_natural(x) || expression_contains_bound_natural(y),
        TypeExpr::Sequence(x, y) => expression_contains_bound_natural(x) || expression_contains_bound_natural(y),
        TypeExpr::SetOf(inner) => {
            let inner: &TypeExpr<Metadata> = inner;
            expression_contains_bound_natural_type(inner)
        },
        _ => false,
    }
}

/// `expression_contains_bound_natural` over a list of trees.
pub fn expression_contains_bound_natural_list<Metadata>(expressions: &Vec<Expr<Metadata>>) -> (found: bool)
    ensures
        found == has_bound_natural_seq(views(expressions@)),
    decreases expressions@, 0nat,
{
    let ghost all = views(expressions@);
    proof {
        lemma_views(expressions@);
    }
    let mut found = false;
    let mut i: usize = 0;
    while i < expressions.len()
        invariant
            i <= expressions.len(),
            all == views(expressions@),
            all.len() == expressions.len(),
            forall|j: int| 0 <= j < expressions.len() ==> #[trigger] all[j] == expressions@[j]@,
            found == has_bound_natural_seq(all.take(i as int)),
        decreases expressions.len() - i,
    {
        proof {
            assert(all.take(i + 1).drop_last() =~= all.take(i as int));
            assert(decreases_to!(expressions@ => expressions@[i as int]));
            
        }
        found = found || expression_contains_bound_natural(&expressions[i]);
        i = i + 1;
    }
    proof {
        assert(all.take(expressions.len() as int) =~= all);
    }
    found
}

/// `expression_contains_bound_natural` over the trees of a list of links.
pub fn expression_contains_bound_natural_comparisons<Metadata>(links: &Vec<(Cmp, Expr<Metadata>)>) -> (found: bool)
    ensures
        found == has_bound_natural_links(comparison_views(links@)),
    decreases links@, 0nat,
{
    let ghost all = comparison_views(links@);
    proof {
        lemma_comparison_views(links@);
    }
    let mut found = false;
    let mut i: usize = 0;
    while i < links.len()
        invariant
            i <= links.len(),
            all == comparison_views(links@),
            all.len() == links.len(),
            forall|j: int| 0 <= j < links.len() ==> #[trigger] all[j] == (links@[j].0, links@[j].1@),
            found == has_bound_natural_links(all.take(i as int)),
        decreases links.len() - i,
    {
        proof {
            assert(all.take(i + 1).drop_last() =~= all.take(i as int));
            assert(decreases_to!(links@ => links@[i as int]));
            
        }
        found = found || expression_contains_bound_natural(&links[i].1);
        i = i + 1;
    }
    proof {
        assert(all.take(links.len() as int) =~= all);
    }
    found
}

/// `expression_contains_bound_natural` over the trees of a list of links.
pub fn expression_contains_bound_natural_logic<Metadata>(links: &Vec<(Logic, Expr<Metadata>)>) -> (found: bool)
    ensures
        found == has_bound_natural_links(logic_views(links@)),
    decreases links@, 0nat,
{
    let ghost all = logic_views(links@);
    proof {
        lemma_logic_views(links@);
    }
    let mut found = false;
    let mut i: usize = 0;
    while i < links.len()
        invariant
            i <= links.len(),
            all == logic_views(links@),
            all.len() == links.len(),
            forall|j: int| 0 <= j < links.len() ==> #[trigger] all[j] == (links@[j].0, links@[j].1@),
            found == has_bound_natural_links(all.take(i as int)),
        decreases links.len() - i,
    {
        proof {
            assert(all.take(i + 1).drop_last() =~= all.take(i as int));
            assert(decreases_to!(links@ => links@[i as int]));
            
        }
        found = found || expression_contains_bound_natural(&links[i].1);
        i = i + 1;
    }
    proof {
        assert(all.take(links.len() as int) =~= all);
    }
    found
}

/// Shifts every free bound natural by `amount`.
pub fn shift_expression(expression: &Expr<()>, amount: usize) -> (result: Expr<()>)
    requires
        size(expression@) <= usize::MAX,
        max_bound_index(expression@) + amount <= usize::MAX,
    ensures
        result@ == shifted(expression@, 0, amount as int),
{
    shift_from(expression, 0, amount)
}

/// The type with every occurrence of `variable` replaced by `replacement`,
/// shifted past the sequence binders it moves under.
pub fn abstract_type_variable(ty: &TypeExpr<()>, variable: &Variable, replacement: &Expr<()>) -> (result: TypeExpr<()>)
    requires
        size(ExprView::Type(type_view(*ty))) <= usize::MAX,
        size(replacement@) <= usize::MAX,
        max_bound_index(replacement@) + size(ExprView::Type(type_view(*ty))) <= usize::MAX,
    ensures
        type_view(result) == abstracted_type(type_view(*ty), variable.view_variable(), replacement@, 0),
{
    abstract_variable_type(ty, variable, replacement, 0)
}

/// The element type of a dependent sequence type at `position`.
pub fn open_sequence_element(ty: &TypeExpr<()>, position: &Expr<()>) -> (result: TypeExpr<()>)
    requires
        size(ExprView::Type(type_view(*ty))) <= usize::MAX,
        size(position@) <= usize::MAX,
        max_bound_index(position@) + size(ExprView::Type(type_view(*ty))) <= usize::MAX,
    ensures
        type_view(result) == opened_type(type_view(*ty), position@, 0),
{
    open_bound_type(ty, position, 0)
}

/// The type with `variable` replaced by `replacement`: abstraction to the
/// bound natural of index 0 followed by opening at `replacement`.
pub fn substitute_type_variable(ty: &TypeExpr<()>, variable: &Variable, replacement: &Expr<()>) -> (result: TypeExpr<()>)
    requires
        size(ExprView::Type(type_view(*ty))) <= usize::MAX / 2,
        size(replacement@) <= usize::MAX / 2,
        max_bound_index(replacement@) + size(ExprView::Type(type_view(*ty))) <= usize::MAX / 2,
        max_bound_index(ExprView::Type(type_view(*ty))) <= usize::MAX / 2,
    ensures
        type_view(result) == opened_type(
            abstracted_type(type_view(*ty), variable.view_variable(), ExprView::BoundNatural(0), 0),
            replacement@,
            0,
        ),
{
    let bound = Expr::new(RawExpr::BoundNatural(DeBruijnIndex(0)));
    let abstracted = abstract_type_variable(ty, variable, &bound);
    proof {
        lemma_abstracted_sizes(type_view(*ty), variable.view_variable(), 0);
        lemma_abstracted_maxima(type_view(*ty), variable.view_variable(), 0);
    }
    open_sequence_element(&abstracted, replacement)
}

/// Whether the type mentions a sequence position that no enclosing
/// sequence type binds.
pub fn contains_unbound_natural(ty: &TypeExpr<()>) -> (found: bool)
    requires
        size(ExprView::Type(type_view(*ty))) <= usize::MAX,
    ensures
        found == has_unbound_type(type_view(*ty), 0),
{
    unbound_natural_in_type(ty, 0)
}

/// Abstracting a variable to a bound natural keeps the node count and keeps
/// every index below the nesting depth it can reach.
#[verifier::rlimit(80)]
#[verifier::spinoff_prover]
pub proof fn lemma_abstracted_sizes_expr(e: ExprView, v: VariableView, depth: int)
    requires
        0 <= depth,
    ensures
        size(abstracted(e, v, ExprView::BoundNatural(0), depth)) == size(e),
    decreases e, 0nat,
{
    match e {
        ExprView::StandardBasis(index, d) => lemma_abstracted_sizes_expr(*index, v, depth),
        ExprView::Type(t) => lemma_abstracted_sizes(t, v, depth),
        ExprView::Matrix(rows, cols, elements) => lemma_abstracted_sizes_seq(elements, v, depth),
        ExprView::Monop(op, x) => lemma_abstracted_sizes_expr(*x, v, depth),
        ExprView::Binop(op, x, y) => {
            lemma_abstracted_sizes_expr(*x, v, depth);
            lemma_abstracted_sizes_expr(*y, v, depth);
        },
        ExprView::Triop(op, x, y, z) => {
            lemma_abstracted_sizes_expr(*x, v, depth);
            lemma_abstracted_sizes_expr(*y, v, depth);
            lemma_abstracted_sizes_expr(*z, v, depth);
        },
        ExprView::Finop(op, operands) => lemma_abstracted_sizes_seq(operands, v, depth),
        ExprView::CmpChain(start, links) => {
            lemma_abstracted_sizes_expr(*start, v, depth);
            lemma_abstracted_sizes_links(links, v, depth);
        },
        ExprView::LogicChain(start, links) => {
            lemma_abstracted_sizes_expr(*start, v, depth);
            lemma_abstracted_sizes_links(links, v, depth);
        },
        ExprView::Seqop(op, x, from, to, body) => {
            lemma_abstracted_sizes_expr(*from, v, depth);
            lemma_abstracted_sizes_expr(*to, v, depth);
            lemma_abstracted_sizes_expr(*body, v, depth);
        },
        ExprView::SetComprehension(x, domain, predicate) => {
            lemma_abstracted_sizes(domain, v, depth);
            lemma_abstracted_sizes_expr(*predicate, v, depth);
        },
        _ => {},
    }
}

/// The type form of `lemma_abstracted_sizes_expr`.
pub proof fn lemma_abstracted_sizes(t: TypeView, v: VariableView, depth: int)
    requires
        0 <= depth,
    ensures
        type_size(abstracted_type(t, v, ExprView::BoundNatural(0), depth)) == type_size(t),
    decreases t, 0nat,
{
    match t {
        TypeView::Matrix(x, y) => {
            lemma_abstracted_sizes_expr(*x, v, depth);
            lemma_abstracted_sizes_expr(*y, v, depth);
        },
        TypeView::Sequence(x, y) => {
            lemma_abstracted_sizes_expr(*x, v, depth + 1);
            lemma_abstracted_sizes_expr(*y, v, depth);
        },
        TypeView::SetOf(inner) => lemma_abstracted_sizes(*inner, v, depth),
        _ => {},
    }
}

/// The list form of `lemma_abstracted_sizes_expr`.
pub proof fn lemma_abstracted_sizes_seq(s: Seq<ExprView>, v: VariableView, depth: int)
    requires
        0 <= depth,
    ensures
        sizes(abstracted_seq(s, v, ExprView::BoundNatural(0), depth)) == sizes(s),
    decreases s, 1nat,
{
    if s.len() > 0 {
        lemma_abstracted_sizes_seq(s.drop_last(), v, depth);
        lemma_abstracted_sizes_expr(s.last(), v, depth);
        let r = ExprView::BoundNatural(0);
        assert(abstracted_seq(s, v, r, depth).drop_last() =~= abstracted_seq(s.drop_last(), v, r, depth));
    }
}

/// The link form of `lemma_abstracted_sizes_expr`.
pub proof fn lemma_abstracted_sizes_links<O>(s: Seq<(O, ExprView)>, v: VariableView, depth: int)
    requires
        0 <= depth,
    ensures
        link_sizes(abstracted_links(s, v, ExprView::BoundNatural(0), depth)) == link_sizes(s),
    decreases s, 1nat,
{
    if s.len() > 0 {
        lemma_abstracted_sizes_links(s.drop_last(), v, depth);
        lemma_abstracted_sizes_expr(s.last().1, v, depth);
        let r = ExprView::BoundNatural(0);
        assert(abstracted_links(s, v, r, depth).drop_last() =~= abstracted_links(s.drop_last(), v, r, depth));
    }
}

/// Abstracting a variable to a bound natural keeps the node count and keeps
/// every index below the nesting depth it can reach.
#[verifier::rlimit(80)]
#[verifier::spinoff_prover]
pub proof fn lemma_abstracted_maxima_expr(e: ExprView, v: VariableView, depth: int)
    requires
        0 <= depth,
    ensures
        max_bound_index(abstracted(e, v, ExprView::BoundNatural(0), depth)) <= larger(max_bound_index(e), (depth + size(e)) as nat),
    decreases e, 0nat,
{
    match e {
        ExprView::StandardBasis(index, d) => lemma_abstracted_maxima_expr(*index, v, depth),
        ExprView::Type(t) => lemma_abstracted_maxima(t, v, depth),
        ExprView::Matrix(rows, cols, elements) => lemma_abstracted_maxima_seq(elements, v, depth),
        ExprView::Monop(op, x) => lemma_abstracted_maxima_expr(*x, v, depth),
        ExprView::Binop(op, x, y) => {
            lemma_abstracted_maxima_expr(*x, v, depth);
            lemma_abstracted_maxima_expr(*y, v, depth);
        },
        ExprView::Triop(op, x, y, z) => {
            lemma_abstracted_maxima_expr(*x, v, depth);
            lemma_abstracted_maxima_expr(*y, v, depth);
            lemma_abstracted_maxima_expr(*z, v, depth);
        },
        ExprView::Finop(op, operands) => lemma_abstracted_maxima_seq(operands, v, depth),
        ExprView::CmpChain(start, links) => {
            lemma_abstracted_maxima_expr(*start, v, depth);
            lemma_abstracted_maxima_links(links, v, depth);
        },
        ExprView::LogicChain(start, links) => {
            lemma_abstracted_maxima_expr(*start, v, depth);
            lemma_abstracted_maxima_links(links, v, depth);
        },
        ExprView::Seqop(op, x, from, to, body) => {
            lemma_abstracted_maxima_expr(*from, v, depth);
            lemma_abstracted_maxima_expr(*to, v, depth);
            lemma_abstracted_maxima_expr(*body, v, depth);
        },
        ExprView::SetComprehension(x, domain, predicate) => {
            lemma_abstracted_maxima(domain, v, depth);
            lemma_abstracted_maxima_expr(*predicate, v, depth);
        },
        _ => {},
    }
}

/// The type form of `lemma_abstracted_maxima_expr`.
pub proof fn lemma_abstracted_maxima(t: TypeView, v: VariableView, depth: int)
    requires
        0 <= depth,
    ensures
        max_bound_index_type(abstracted_type(t, v, ExprView::BoundNatural(0), depth)) <= larger(max_bound_index_type(t), (depth + 1 + type_size(t)) as nat),
    decreases t, 0nat,
{
    match t {
        TypeView::Matrix(x, y) => {
            lemma_abstracted_maxima_expr(*x, v, depth);
            lemma_abstracted_maxima_expr(*y, v, depth);
        },
        TypeView::Sequence(x, y) => {
            lemma_abstracted_maxima_expr(*x, v, depth + 1);
            lemma_abstracted_maxima_expr(*y, v, depth);
        },
        TypeView::SetOf(inner) => lemma_abstracted_maxima(*inner, v, depth),
        _ => {},
    }
}

/// The list form of `lemma_abstracted_maxima_expr`.
pub proof fn lemma_abstracted_maxima_seq(s: Seq<ExprView>, v: VariableView, depth: int)
    requires
        0 <= depth,
    ensures
        max_bound_index_seq(abstracted_seq(s, v, ExprView::BoundNatural(0), depth)) <= larger(max_bound_index_seq(s), (depth + sizes(s)) as nat),
    decreases s, 1nat,
{
    if s.len() > 0 {
        lemma_abstracted_maxima_seq(s.drop_last(), v, depth);
        lemma_abstracted_maxima_expr(s.last(), v, depth);
        let r = ExprView::BoundNatural(0);
        assert(abstracted_seq(s, v, r, depth).drop_last() =~= abstracted_seq(s.drop_last(), v, r, depth));
    }
}

/// The link form of `lemma_abstracted_maxima_expr`.
pub proof fn lemma_abstracted_maxima_links<O>(s: Seq<(O, ExprView)>, v: VariableView, depth: int)
    requires
        0 <= depth,
    ensures
        max_bound_index_links(abstracted_links(s, v, ExprView::BoundNatural(0), depth)) <= larger(max_bound_index_links(s), (depth + link_sizes(s)) as nat),
    decreases s, 1nat,
{
    if s.len() > 0 {
        lemma_abstracted_maxima_links(s.drop_last(), v, depth);
        lemma_abstracted_maxima_expr(s.last().1, v, depth);
        let r = ExprView::BoundNatural(0);
        assert(abstracted_links(s, v, r, depth).drop_last() =~= abstracted_links(s.drop_last(), v, r, depth));
    }
}

/// Opening the bound natural that an abstraction introduced is direct
/// replacement: in a tree with no bound natural free at `depth`, abstracting
/// `v` to the bound natural of the binder at `depth` and then opening that
/// binder at `r` replaces `v` by `r`.
pub proof fn lemma_open_after_abstract(e: ExprView, v: VariableView, r: ExprView, depth: int)
    requires
        0 <= depth,
        depth + size(e) <= usize::MAX,
        !has_unbound(e, depth),
    ensures
        opened(abstracted(e, v, ExprView::BoundNatural(0), depth), r, depth) == abstracted(e, v, r, depth),
    decreases e, 0nat,
{
    let b = ExprView::BoundNatural(0);
    match e {
        ExprView::Variable(x) => {
            if x == v {
                let at = (0 + depth) as usize;
                assert(at as int == depth);
                assert(shifted(b, 0, depth) == ExprView::BoundNatural(at));
                assert(opened(ExprView::BoundNatural(at), r, depth) == shifted(r, 0, depth));
            }
        },
        ExprView::StandardBasis(index, _) => lemma_open_after_abstract(*index, v, r, depth),
        ExprView::Type(t) => lemma_open_after_abstract_type(t, v, r, depth),
        ExprView::Matrix(_, _, elements) => lemma_open_after_abstract_seq(elements, v, r, depth),
        ExprView::Monop(_, x) => lemma_open_after_abstract(*x, v, r, depth),
        ExprView::Binop(_, x, y) => {
            lemma_open_after_abstract(*x, v, r, depth);
            lemma_open_after_abstract(*y, v, r, depth);
        },
        ExprView::Triop(_, x, y, z) => {
            lemma_open_after_abstract(*x, v, r, depth);
            lemma_open_after_abstract(*y, v, r, depth);
            lemma_open_after_abstract(*z, v, r, depth);
        },
        ExprView::Finop(_, operands) => lemma_open_after_abstract_seq(operands, v, r, depth),
        ExprView::CmpChain(start, links) => {
            lemma_open_after_abstract(*start, v, r, depth);
            lemma_open_after_abstract_links(links, v, r, depth);
        },
        ExprView::LogicChain(start, links) => {
            lemma_open_after_abstract(*start, v, r, depth);
            lemma_open_after_abstract_links(links, v, r, depth);
        },
        ExprView::Seqop(_, _, from, to, body) => {
            lemma_open_after_abstract(*from, v, r, depth);
            lemma_open_after_abstract(*to, v, r, depth);
            lemma_open_after_abstract(*body, v, r, depth);
        },
        ExprView::SetComprehension(_, domain, predicate) => {
            lemma_open_after_abstract_type(domain, v, r, depth);
            lemma_open_after_abstract(*predicate, v, r, depth);
        },
        _ => {},
    }
}

/// The type form of `lemma_open_after_abstract`.
pub proof fn lemma_open_after_abstract_type(t: TypeView, v: VariableView, r: ExprView, depth: int)
    requires
        0 <= depth,
        depth + 1 + type_size(t) <= usize::MAX,
        !has_unbound_type(t, depth),
    ensures
        opened_type(abstracted_type(t, v, ExprView::BoundNatural(0), depth), r, depth) == abstracted_type(t, v, r, depth),
    decreases t, 0nat,
{
    match t {
        TypeView::Matrix(x, y) => {
            lemma_open_after_abstract(*x, v, r, depth);
            lemma_open_after_abstract(*y, v, r, depth);
        },
        TypeView::Sequence(x, y) => {
            lemma_open_after_abstract(*x, v, r, depth + 1);
            lemma_open_after_abstract(*y, v, r, depth);
        },
        TypeView::SetOf(inner) => lemma_open_after_abstract_type(*inner, v, r, depth),
        _ => {},
    }
}

/// The list form of `lemma_open_after_abstract`.
pub proof fn lemma_open_after_abstract_seq(s: Seq<ExprView>, v: VariableView, r: ExprView, depth: int)
    requires
        0 <= depth,
        depth + sizes(s) <= usize::MAX,
        !has_unbound_seq(s, depth),
    ensures
        opened_seq(abstracted_seq(s, v, ExprView::BoundNatural(0), depth), r, depth) == abstracted_seq(s, v, r, depth),
    decreases s, 1nat,
{
    if s.len() > 0 {
        let b = ExprView::BoundNatural(0);
        lemma_open_after_abstract_seq(s.drop_last(), v, r, depth);
        lemma_open_after_abstract(s.last(), v, r, depth);
        assert(abstracted_seq(s, v, b, depth).drop_last() =~= abstracted_seq(s.drop_last(), v, b, depth));
        assert(opened_seq(abstracted_seq(s, v, b, depth), r, depth) =~= abstracted_seq(s, v, r, depth));
    }
}

/// The link form of `lemma_open_after_abstract`.
pub proof fn lemma_open_after_abstract_links<O>(s: Seq<(O, ExprView)>, v: VariableView, r: ExprView, depth: int)
    requires
        0 <= depth,
        depth + link_sizes(s) <= usize::MAX,
        !has_unbound_links(s, depth),
    ensures
        opened_links(abstracted_links(s, v, ExprView::BoundNatural(0), depth), r, depth) == abstracted_links(s, v, r, depth),
    decreases s, 1nat,
{
    if s.len() > 0 {
        let b = ExprView::BoundNatural(0);
        lemma_open_after_abstract_links(s.drop_last(), v, r, depth);
        lemma_open_after_abstract(s.last().1, v, r, depth);
        assert(abstracted_links(s, v, b, depth).drop_last() =~= abstracted_links(s.drop_last(), v, b, depth));
        assert(opened_links(abstracted_links(s, v, b, depth), r, depth) =~= abstracted_links(s, v, r, depth));
    }
}

/// In a type with no free bound natural, substituting `v` by `r` through the
/// bound natural of a sequence binder (what `substitute_type_variable`
/// computes) is the same as replacing `v` by `r` directly (what
/// `abstract_type_variable` computes).
pub proof fn law_substitution_is_direct_replacement(t: TypeView, v: VariableView, r: ExprView)
    requires
        !has_unbound_type(t, 0),
        1 + type_size(t) <= usize::MAX,
    ensures
        opened_type(abstracted_type(t, v, ExprView::BoundNatural(0), 0), r, 0) == abstracted_type(t, v, r, 0),
{
    lemma_open_after_abstract_type(t, v, r, 0);
}

/// Shifting the bound naturals of a tree closed under `m` binders by `amount`
/// leaves it closed under `m + amount` binders.
pub proof fn lemma_shift_keeps_closed(x: ExprView, cutoff: int, amount: int, m: int)
    requires
        0 <= cutoff <= m,
        0 <= amount,
        max_bound_index(x) + amount <= usize::MAX,
        !has_unbound(x, m),
    ensures
        !has_unbound(shifted(x, cutoff, amount), m + amount),
    decreases x, 0nat,
{
    match x {
        ExprView::StandardBasis(index, _) => lemma_shift_keeps_closed(*index, cutoff, amount, m),
        ExprView::Type(t) => lemma_shift_keeps_closed_type(t, cutoff, amount, m),
        ExprView::Matrix(_, _, elements) => lemma_shift_keeps_closed_seq(elements, cutoff, amount, m),
        ExprView::Monop(_, a) => lemma_shift_keeps_closed(*a, cutoff, amount, m),
        ExprView::Binop(_, a, b) => {
            lemma_shift_keeps_closed(*a, cutoff, amount, m);
            lemma_shift_keeps_closed(*b, cutoff, amount, m);
        },
        ExprView::Triop(_, a, b, c) => {
            lemma_shift_keeps_closed(*a, cutoff, amount, m);
            lemma_shift_keeps_closed(*b, cutoff, amount, m);
            lemma_shift_keeps_closed(*c, cutoff, amount, m);
        },
        ExprView::Finop(_, operands) => lemma_shift_keeps_closed_seq(operands, cutoff, amount, m),
        ExprView::CmpChain(start, links) => {
            lemma_shift_keeps_closed(*start, cutoff, amount, m);
            lemma_shift_keeps_closed_links(links, cutoff, amount, m);
        },
        ExprView::LogicChain(start, links) => {
            lemma_shift_keeps_closed(*start, cutoff, amount, m);
            lemma_shift_keeps_closed_links(links, cutoff, amount, m);
        },
        ExprView::Seqop(_, _, from, to, body) => {
            lemma_shift_keeps_closed(*from, cutoff, amount, m);
            lemma_shift_keeps_closed(*to, cutoff, amount, m);
            lemma_shift_keeps_closed(*body, cutoff, amount, m);
        },
        ExprView::SetComprehension(_, domain, predicate) => {
            lemma_shift_keeps_closed_type(domain, cutoff, amount, m);
            lemma_shift_keeps_closed(*predicate, cutoff, amount, m);
        },
        _ => {},
    }
}

/// The type form of `lemma_shift_keeps_closed`.
pub proof fn lemma_shift_keeps_closed_type(t: TypeView, cutoff: int, amount: int, m: int)
    requires
        0 <= cutoff <= m,
        0 <= amount,
        max_bound_index_type(t) + amount <= usize::MAX,
        !has_unbound_type(t, m),
    ensures
        !has_unbound_type(shifted_type(t, cutoff, amount), m + amount),
    decreases t, 0nat,
{
    match t {
        TypeView::Matrix(a, b) => {
            lemma_shift_keeps_closed(*a, cutoff, amount, m);
            lemma_shift_keeps_closed(*b, cutoff, amount, m);
        },
        TypeView::Sequence(a, b) => {
            lemma_shift_keeps_closed(*a, cutoff + 1, amount, m + 1);
            lemma_shift_keeps_closed(*b, cutoff, amount, m);
        },
        TypeView::SetOf(inner) => lemma_shift_keeps_closed_type(*inner, cutoff, amount, m),
        _ => {},
    }
}

/// The list form of `lemma_shift_keeps_closed`.
pub proof fn lemma_shift_keeps_closed_seq(s: Seq<ExprView>, cutoff: int, amount: int, m: int)
    requires
        0 <= cutoff <= m,
        0 <= amount,
        max_bound_index_seq(s) + amount <= usize::MAX,
        !has_unbound_seq(s, m),
    ensures
        !has_unbound_seq(shifted_seq(s, cutoff, amount), m + amount),
    decreases s, 1nat,
{
    if s.len() > 0 {
        lemma_shift_keeps_closed_seq(s.drop_last(), cutoff, amount, m);
        lemma_shift_keeps_closed(s.last(), cutoff, amount, m);
        assert(shifted_seq(s, cutoff, amount).drop_last() =~= shifted_seq(s.drop_last(), cutoff, amount));
    }
}

/// The link form of `lemma_shift_keeps_closed`.
pub proof fn lemma_shift_keeps_closed_links<O>(s: Seq<(O, ExprView)>, cutoff: int, amount: int, m: int)
    requires
        0 <= cutoff <= m,
        0 <= amount,
        max_bound_index_links(s) + amount <= usize::MAX,
        !has_unbound_links(s, m),
    ensures
        !has_unbound_links(shifted_links(s, cutoff, amount), m + amount),
    decreases s, 1nat,
{
    if s.len() > 0 {
        lemma_shift_keeps_closed_links(s.drop_last(), cutoff, amount, m);
        lemma_shift_keeps_closed(s.last().1, cutoff, amount, m);
        assert(shifted_links(s, cutoff, amount).drop_last() =~= shifted_links(s.drop_last(), cutoff, amount));
    }
}

/// Replacing `v` by a tree `r` closed under `k` binders, in a tree closed at
/// `depth`, gives a tree closed under `depth + k` binders.
pub proof fn lemma_abstract_keeps_closed(e: ExprView, v: VariableView, r: ExprView, depth: int, k: int)
    requires
        0 <= depth,
        0 <= k,
        max_bound_index(r) + depth + size(e) <= usize::MAX,
        !has_unbound(e, depth),
        !has_unbound(r, k),
    ensures
        !has_unbound(abstracted(e, v, r, depth), depth + k),
    decreases e, 0nat,
{
    match e {
        ExprView::Variable(x) => {
            if x == v {
                lemma_shift_keeps_closed(r, 0, depth, k);
            }
        },
        ExprView::StandardBasis(index, _) => lemma_abstract_keeps_closed(*index, v, r, depth, k),
        ExprView::Type(t) => lemma_abstract_keeps_closed_type(t, v, r, depth, k),
        ExprView::Matrix(_, _, elements) => lemma_abstract_keeps_closed_seq(elements, v, r, depth, k),
        ExprView::Monop(_, a) => lemma_abstract_keeps_closed(*a, v, r, depth, k),
        ExprView::Binop(_, a, b) => {
            lemma_abstract_keeps_closed(*a, v, r, depth, k);
            lemma_abstract_keeps_closed(*b, v, r, depth, k);
        },
        ExprView::Triop(_, a, b, c) => {
            lemma_abstract_keeps_closed(*a, v, r, depth, k);
            lemma_abstract_keeps_closed(*b, v, r, depth, k);
            lemma_abstract_keeps_closed(*c, v, r, depth, k);
        },
        ExprView::Finop(_, operands) => lemma_abstract_keeps_closed_seq(operands, v, r, depth, k),
        ExprView::CmpChain(start, links) => {
            lemma_abstract_keeps_closed(*start, v, r, depth, k);
            lemma_abstract_keeps_closed_links(links, v, r, depth, k);
        },
        ExprView::LogicChain(start, links) => {
            lemma_abstract_keeps_closed(*start, v, r, depth, k);
            lemma_abstract_keeps_closed_links(links, v, r, depth, k);
        },
        ExprView::Seqop(_, _, from, to, body) => {
            lemma_abstract_keeps_closed(*from, v, r, depth, k);
            lemma_abstract_keeps_closed(*to, v, r, depth, k);
            lemma_abstract_keeps_closed(*body, v, r, depth, k);
        },
        ExprView::SetComprehension(_, domain, predicate) => {
            lemma_abstract_keeps_closed_type(domain, v, r, depth, k);
            lemma_abstract_keeps_closed(*predicate, v, r, depth, k);
        },
        _ => {},
    }
}

/// The type form of `lemma_abstract_keeps_closed`.
pub proof fn lemma_abstract_keeps_closed_type(t: TypeView, v: VariableView, r: ExprView, depth: int, k: int)
    requires
        0 <= depth,
        0 <= k,
        max_bound_index(r) + depth + 1 + type_size(t) <= usize::MAX,
        !has_unbound_type(t, depth),
        !has_unbound(r, k),
    ensures
        !has_unbound_type(abstracted_type(t, v, r, depth), depth + k),
    decreases t, 0nat,
{
    match t {
        TypeView::Matrix(a, b) => {
            lemma_abstract_keeps_closed(*a, v, r, depth, k);
            lemma_abstract_keeps_closed(*b, v, r, depth, k);
        },
        TypeView::Sequence(a, b) => {
            lemma_abstract_keeps_closed(*a, v, r, depth + 1, k);
            lemma_abstract_keeps_closed(*b, v, r, depth, k);
        },
        TypeView::SetOf(inner) => lemma_abstract_keeps_closed_type(*inner, v, r, depth, k),
        _ => {},
    }
}

/// The list form of `lemma_abstract_keeps_closed`.
pub proof fn lemma_abstract_keeps_closed_seq(s: Seq<ExprView>, v: VariableView, r: ExprView, depth: int, k: int)
    requires
        0 <= depth,
        0 <= k,
        max_bound_index(r) + depth + sizes(s) <= usize::MAX,
        !has_unbound_seq(s, depth),
        !has_unbound(r, k),
    ensures
        !has_unbound_seq(abstracted_seq(s, v, r, depth), depth + k),
    decreases s, 1nat,
{
    if s.len() > 0 {
        lemma_abstract_keeps_closed_seq(s.drop_last(), v, r, depth, k);
        lemma_abstract_keeps_closed(s.last(), v, r, depth, k);
        assert(abstracted_seq(s, v, r, depth).drop_last() =~= abstracted_seq(s.drop_last(), v, r, depth));
    }
}

/// The link form of `lemma_abstract_keeps_closed`.
pub proof fn lemma_abstract_keeps_closed_links<O>(s: Seq<(O, ExprView)>, v: VariableView, r: ExprView, depth: int, k: int)
    requires
        0 <= depth,
        0 <= k,
        max_bound_index(r) + depth + link_sizes(s) <= usize::MAX,
        !has_unbound_links(s, depth),
        !has_unbound(r, k),
    ensures
        !has_unbound_links(abstracted_links(s, v, r, depth), depth + k),
    decreases s, 1nat,
{
    if s.len() > 0 {
        lemma_abstract_keeps_closed_links(s.drop_last(), v, r, depth, k);
        lemma_abstract_keeps_closed(s.last().1, v, r, depth, k);
        assert(abstracted_links(s, v, r, depth).drop_last() =~= abstracted_links(s.drop_last(), v, r, depth));
    }
}

/// Abstraction does not capture: replacing `v` in a type with no free bound
/// natural by a tree that is closed under `k` sequence binders gives a type
/// that is closed under `k` sequence binders.
pub proof fn law_abstraction_does_not_capture(t: TypeView, v: VariableView, r: ExprView, k: int)
    requires
        0 <= k,
        !has_unbound_type(t, 0),
        !has_unbound(r, k),
        max_bound_index(r) + 1 + type_size(t) <= usize::MAX,
    ensures
        !has_unbound_type(abstracted_type(t, v, r, 0), k),
{
    lemma_abstract_keeps_closed_type(t, v, r, 0, k);
}

} // verus!
