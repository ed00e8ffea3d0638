//! The mathematical model of expressions: trees of plain values, with
//! metadata erased and sharing forgotten.
use vstd::prelude::*;

use crate::{
    Annotation, Binop, Cmp, Expr, Finop, Logic, Monop, RawExpr, SeqOp, Triop, TypeExpr,
};

verus! {

/// A variable as a value: its name, its textual subscript and its
/// annotations.
pub struct VariableView {
    pub name: Seq<char>,
    pub subscript: Seq<char>,
    pub annotations: Seq<Annotation>,
}

/// A natural parameter as a value.
pub enum ParameterView {
    Variable(VariableView),
    Implicit(u64),
}

/// The model of a type expression.
pub enum TypeView {
    Bool,
    Nat,
    Int,
    Real,
    Matrix(Box<ExprView>, Box<ExprView>),
    Sequence(Box<ExprView>, Box<ExprView>),
    SetOf(Box<TypeView>),
}

/// The model of an expression.
pub enum ExprView {
    Hole,
    Ellipsis,
    ImplicitDimension(u64),
    BoundNatural(usize),
    IdentityMatrix(u64),
    StandardBasis(Box<ExprView>, u64),
    ZeroMatrix(u64, u64),
    Type(TypeView),
    Variable(VariableView),
    NatLiteral(u64),
    Matrix(usize, usize, Seq<ExprView>),
    Monop(Monop, Box<ExprView>),
    Binop(Binop, Box<ExprView>, Box<ExprView>),
    Triop(Triop, Box<ExprView>, Box<ExprView>, Box<ExprView>),
    Finop(Finop, Seq<ExprView>),
    CmpChain(Box<ExprView>, Seq<(Cmp, ExprView)>),
    LogicChain(Box<ExprView>, Seq<(Logic, ExprView)>),
    Seqop(SeqOp, VariableView, Box<ExprView>, Box<ExprView>, Box<ExprView>),
    SetComprehension(VariableView, TypeView, Box<ExprView>),
}

impl<Metadata> View for Expr<Metadata> {
    type V = ExprView;

    open spec fn view(&self) -> ExprView {
        expr_view(*self)
    }
}

/// The model of an expression tree.
pub open spec fn expr_view<Metadata>(e: Expr<Metadata>) -> ExprView
    decreases e, 0nat,
{
    match e.node().raw {
        RawExpr::Hole => ExprView::Hole,
        RawExpr::Ellipsis => ExprView::Ellipsis,
        RawExpr::ImplicitDimension(d) => ExprView::ImplicitDimension(d.nonce()),
        RawExpr::BoundNatural(i) => ExprView::BoundNatural(i.index()),
        RawExpr::IdentityMatrix { dimension } => ExprView::IdentityMatrix(dimension.nonce()),
        RawExpr::StandardBasis { index, dimension } => ExprView::StandardBasis(
            Box::new(expr_view(index)),
            dimension.nonce(),
        ),
        RawExpr::ZeroMatrix { rows, cols } => ExprView::ZeroMatrix(rows.nonce(), cols.nonce()),
        RawExpr::Type(ty) => ExprView::Type(type_view(ty)),
        RawExpr::Variable(v) => ExprView::Variable(v.view_variable()),
        RawExpr::NatLiteral(n) => ExprView::NatLiteral(n),
        RawExpr::Matrix(m) => ExprView::Matrix(m.rows, m.cols, views(m.elements@)),
        RawExpr::Monop(op, a) => ExprView::Monop(op, Box::new(expr_view(a))),
        RawExpr::Binop(op, a, b) => ExprView::Binop(op, Box::new(expr_view(a)), Box::new(expr_view(b))),
        RawExpr::Triop(op, a, b, c) => ExprView::Triop(
            op,
            Box::new(expr_view(a)),
            Box::new(expr_view(b)),
            Box::new(expr_view(c)),
        ),
        RawExpr::Finop(op, v) => ExprView::Finop(op, views(v@)),
        RawExpr::CmpChain(chain) => ExprView::CmpChain(
            Box::new(expr_view(chain.start)),
            comparison_views(chain.assertions@),
        ),
        RawExpr::LogicChain(chain) => ExprView::LogicChain(
            Box::new(expr_view(chain.start)),
            logic_views(chain.assertions@),
        ),
        RawExpr::Seqop(op, range, body) => ExprView::Seqop(
            op,
            range.index_variable.view_variable(),
            Box::new(expr_view(range.from)),
            Box::new(expr_view(range.to)),
            Box::new(expr_view(body)),
        ),
        RawExpr::SetComprehension { variable, domain, predicate } => ExprView::SetComprehension(
            variable.view_variable(),
            type_view(domain),
            Box::new(expr_view(predicate)),
        ),
    }
}

/// The model of a type expression.
pub open spec fn type_view<Metadata>(t: TypeExpr<Metadata>) -> TypeView
    decreases t, 0nat,
{
    match t {
        TypeExpr::Bool => TypeView::Bool,
        TypeExpr::Nat => TypeView::Nat,
        TypeExpr::Int => TypeView::Int,
        TypeExpr::Real => TypeView::Real,
        TypeExpr::Matrix(r, c) => TypeView::Matrix(Box::new(expr_view(r)), Box::new(expr_view(c))),
        TypeExpr::Sequence(e, n) => TypeView::Sequence(Box::new(expr_view(e)), Box::new(expr_view(n))),
        TypeExpr::SetOf(e) => TypeView::SetOf(Box::new(type_view(*e))),
    }
}

/// The models of a list of expressions.
pub open spec fn views<Metadata>(s: Seq<Expr<Metadata>>) -> Seq<ExprView>
    decreases s, 1nat,
{
    if s.len() == 0 {
        Seq::empty()
    } else {
        views(s.drop_last()).push(expr_view(s.last()))
    }
}

/// The models of the links of a comparison chain.
pub open spec fn comparison_views<Metadata>(s: Seq<(Cmp, Expr<Metadata>)>) -> Seq<(Cmp, ExprView)>
    decreases s, 1nat,
{
    if s.len() == 0 {
        Seq::empty()
    } else {
        comparison_views(s.drop_last()).push((s.last().0, expr_view(s.last().1)))
    }
}

/// The models of the links of a logic chain.
pub open spec fn logic_views<Metadata>(s: Seq<(Logic, Expr<Metadata>)>) -> Seq<(Logic, ExprView)>
    decreases s, 1nat,
{
    if s.len() == 0 {
        Seq::empty()
    } else {
        logic_views(s.drop_last()).push((s.last().0, expr_view(s.last().1)))
    }
}

/// `views` is taken pointwise.
pub proof fn lemma_views<Metadata>(s: Seq<Expr<Metadata>>)
    ensures
        views(s).len() == s.len(),
        forall|i: int| 0 <= i < s.len() ==> #[trigger] views(s)[i] == expr_view(s[i]),
    decreases s.len(),
{
    if s.len() > 0 {
        lemma_views(s.drop_last());
    }
}

/// `comparison_views` is taken pointwise.
pub proof fn lemma_comparison_views<Metadata>(s: Seq<(Cmp, Expr<Metadata>)>)
    ensures
        comparison_views(s).len() == s.len(),
        forall|i: int| 0 <= i < s.len() ==> #[trigger] comparison_views(s)[i] == (s[i].0, expr_view(s[i].1)),
    decreases s.len(),
{
    if s.len() > 0 {
        lemma_comparison_views(s.drop_last());
    }
}

/// `logic_views` is taken pointwise.
pub proof fn lemma_logic_views<Metadata>(s: Seq<(Logic, Expr<Metadata>)>)
    ensures
        logic_views(s).len() == s.len(),
        forall|i: int| 0 <= i < s.len() ==> #[trigger] logic_views(s)[i] == (s[i].0, expr_view(s[i].1)),
    decreases s.len(),
{
    if s.len() > 0 {
        lemma_logic_views(s.drop_last());
    }
}

} // verus!
