//! Lowering of the set-valued operators: `\operatorname{Nul}(A)` and
//! `\operatorname{Range}(A)` become typed set comprehensions.
use vstd::prelude::*;

use crate::context::VisitContext;
pub use crate::quantifier_lowering::QuantifierLowering;
pub use crate::roots::{Norm2SquaredVisitor, Norm2Visitor, SquareRootVisitor};
use crate::expression_utils::{
    collect_variables, distinct_variables, lemma_variable_set, variable_set, variables,
};
use crate::to_tex::latex;
use crate::type_resolver::{annotation, MaybeTyped, TypeError, TypedMetadata};
use crate::view::{comparison_views, logic_views, type_view, views, ExprView, TypeView, VariableView};
use crate::{
    nonce_after, Annotation, Binop, Cmp, CmpChain, DimensionSupply, Expr, Finop, ImplicitDimension, Logic,
    LogicChain, Matrix, Monop, Range, RawExpr, TypeExpr, Variable,
};

verus! {

/// The progress of a lowering pass: the next implicit-dimension nonce, the
/// number of rewrites, and the failure met, if any.
pub struct SetLoweringState {
    pub next_nonce: u64,
    pub rewrites: usize,
    pub failure: Option<Seq<char>>,
}

/// A lowered expression: its model, the type recorded at its root, the
/// state after it, and whether every operand that had to be rendered could
/// be.
pub struct SetLowered {
    pub view: ExprView,
    pub root_type: Option<TypeView>,
    pub state: SetLoweringState,
    pub renders: bool,
}

pub struct TypeSetLowered {
    pub view: TypeView,
    pub state: SetLoweringState,
    pub renders: bool,
}

pub struct ListSetLowered {
    pub views: Seq<ExprView>,
    pub state: SetLoweringState,
    pub renders: bool,
}

pub struct LinksSetLowered<O> {
    pub views: Seq<(O, ExprView)>,
    pub state: SetLoweringState,
    pub renders: bool,
}

/// `x` with `k` primes.
pub open spec fn primed_x(k: nat) -> VariableView {
    VariableView { name: "x"@, subscript: Seq::empty(), annotations: Seq::new(k, |i: int| Annotation::Prime) }
}

/// The fewest primes, up to `bound`, that make `x` a variable not in `used`.
pub open spec fn fresh_primes(used: Set<VariableView>, bound: nat, k: nat) -> nat
    decreases bound - k,
{
    if k >= bound || !used.contains(primed_x(k)) {
        k
    } else {
        fresh_primes(used, bound, k + 1)
    }
}

/// The binder of the comprehension that replaces a set operator: the first
/// of `x`, `x'`, `x''`, ... that the operand does not use.
pub open spec fn set_binder(operand: ExprView) -> VariableView {
    primed_x(fresh_primes(variables(operand), variables(operand).len(), 0))
}

pub open spec fn scalar_column(length: ExprView) -> TypeView {
    TypeView::Matrix(Box::new(length), Box::new(ExprView::NatLiteral(1)))
}

pub open spec fn variable_node(v: VariableView) -> ExprView {
    ExprView::Variable(v)
}

pub open spec fn product(a: ExprView, b: ExprView) -> ExprView {
    ExprView::Finop(Finop::Times, seq![a, b])
}

pub open spec fn equation(a: ExprView, b: ExprView) -> ExprView {
    ExprView::CmpChain(Box::new(a), seq![(Cmp::Eq, b)])
}

pub open spec fn membership(v: VariableView, t: TypeView) -> ExprView {
    ExprView::Binop(Binop::ElementOf, Box::new(variable_node(v)), Box::new(ExprView::Type(t)))
}

/// The witness of a preimage: `w` subscripted by the operand's text.
pub open spec fn preimage_witness(operand: ExprView) -> VariableView {
    VariableView { name: "w"@, subscript: "preimage of "@ + latex(operand, true), annotations: Seq::empty() }
}

/// The universally quantified vector of a left null space.
pub open spec fn left_null_vector(operand: ExprView) -> VariableView {
    VariableView { name: "z"@, subscript: "left null of "@ + latex(operand, true), annotations: Seq::empty() }
}

/// `A x = 0`, the zero having fresh implicit dimensions.
pub open spec fn kernel_predicate(operand: ExprView, x: VariableView, nonce: u64) -> ExprView {
    equation(product(operand, variable_node(x)), ExprView::ZeroMatrix(nonce, nonce_after(nonce)))
}

/// `\exists w \in \mathbb{R}^{cols}, A w = x`.
pub open spec fn preimage_predicate(operand: ExprView, cols: ExprView, x: VariableView) -> ExprView {
    let w = preimage_witness(operand);
    ExprView::Finop(
        Finop::Exists,
        seq![membership(w, scalar_column(cols)), equation(product(operand, variable_node(w)), variable_node(x))],
    )
}

/// `\forall z \in \mathbb{R}^{rows}, A^\top z = 0, z^\top x = 0`: `x` is
/// orthogonal to the left null space.
pub open spec fn orthogonality_predicate(operand: ExprView, rows: ExprView, x: VariableView, nonce: u64) -> ExprView {
    let z = left_null_vector(operand);
    ExprView::Finop(
        Finop::Forall,
        seq![
            membership(z, scalar_column(rows)),
            equation(
                product(ExprView::Monop(Monop::Transpose, Box::new(operand)), variable_node(z)),
                ExprView::ZeroMatrix(nonce, nonce_after(nonce)),
            ),
            equation(
                product(ExprView::Monop(Monop::Transpose, Box::new(variable_node(z))), variable_node(x)),
                ExprView::NatLiteral(0),
            ),
        ],
    )
}

pub open spec fn with_failure(s: SetLoweringState, message: Seq<char>) -> SetLoweringState {
    SetLoweringState { next_nonce: s.next_nonce, rewrites: s.rewrites, failure: Some(message) }
}

pub open spec fn wrapping_increment(n: usize) -> usize {
    if n == usize::MAX {
        0
    } else {
        (n + 1) as usize
    }
}

/// The rewrite of `op` applied to an already lowered operand: a
/// comprehension over matrix columns for a matrix operand, else a failure.
/// `Nul(A)` is `{x : A x = 0}`; `Range(A)` is `{x : \exists w, A w = x}`
/// where the polarity is positive, and the set of vectors orthogonal to
/// the left null space of `A` where it is negative.
pub open spec fn set_rewrite(op: Monop, operand: SetLowered, own_type: Option<TypeView>, polarity: bool) -> SetLowered {
    let s = operand.state;
    let unchanged = ExprView::Monop(op, Box::new(operand.view));
    match operand.root_type {
        None => SetLowered {
            view: unchanged,
            root_type: own_type,
            state: with_failure(s, "set operators require an operand with a resolved symbolic matrix type"@),
            renders: operand.renders,
        },
        Some(t) => match t {
            TypeView::Matrix(rows, cols) => {
                let x = set_binder(operand.view);
                let nul = op == Monop::Nul;
                SetLowered {
                    view: ExprView::SetComprehension(
                        x,
                        if nul {
                            scalar_column(*cols)
                        } else {
                            scalar_column(*rows)
                        },
                        Box::new(
                            if nul {
                                kernel_predicate(operand.view, x, s.next_nonce)
                            } else if polarity {
                                preimage_predicate(operand.view, *cols, x)
                            } else {
                                orthogonality_predicate(operand.view, *rows, x, s.next_nonce)
                            },
                        ),
                    ),
                    root_type: None,
                    state: SetLoweringState {
                        next_nonce: if nul || !polarity {
                            nonce_after(nonce_after(s.next_nonce))
                        } else {
                            s.next_nonce
                        },
                        rewrites: wrapping_increment(s.rewrites),
                        failure: s.failure,
                    },
                    renders: operand.renders && (nul || renderable_verbose(operand.view)),
                }
            },
            _ => SetLowered {
                view: unchanged,
                root_type: own_type,
                state: with_failure(s, "set operators require a matrix operand"@),
                renders: operand.renders,
            },
        },
    }
}

pub open spec fn renderable_verbose(e: ExprView) -> bool {
    crate::to_tex::renderable(e, true)
}

pub open spec fn kept(view: ExprView, e: Expr<TypedMetadata>, state: SetLoweringState, renders: bool) -> SetLowered {
    SetLowered { view, root_type: annotation(e), state, renders }
}

/// Lowering of every set operator below and at `e`, children first; a set
/// comprehension is left as it is, and nothing is visited once a failure
/// has been met.
pub open spec fn set_lowered(e: Expr<TypedMetadata>, polarity: bool, s: SetLoweringState) -> SetLowered
    decreases e, 0nat,
{
    if s.failure is Some || e.node().raw is SetComprehension {
        kept(e@, e, s, true)
    } else {
        match e.node().raw {
            RawExpr::StandardBasis { index, dimension } => {
                let r = set_lowered(index, polarity, s);
                kept(ExprView::StandardBasis(Box::new(r.view), dimension.nonce()), e, r.state, r.renders)
            },
            RawExpr::Type(t) => {
                let r = set_lowered_type(t, polarity, s);
                kept(ExprView::Type(r.view), e, r.state, r.renders)
            },
            RawExpr::Matrix(m) => {
                let r = set_lowered_list(m.elements@, polarity, s);
                kept(ExprView::Matrix(m.rows, m.cols, r.views), e, r.state, r.renders)
            },
            RawExpr::Monop(op, x) => {
                let r = set_lowered(x, polarity, s);
                if op == Monop::Nul || op == Monop::Range {
                    set_rewrite(op, r, annotation(e), polarity)
                } else {
                    kept(ExprView::Monop(op, Box::new(r.view)), e, r.state, r.renders)
                }
            },
            RawExpr::Binop(op, a, b) => {
                let ra = set_lowered(a, polarity, s);
                let rb = set_lowered(b, polarity, ra.state);
                kept(ExprView::Binop(op, Box::new(ra.view), Box::new(rb.view)), e, rb.state, ra.renders && rb.renders)
            },
            RawExpr::Triop(op, a, b, c) => {
                let ra = set_lowered(a, polarity, s);
                let rb = set_lowered(b, polarity, ra.state);
                let rc = set_lowered(c, polarity, rb.state);
                kept(
                    ExprView::Triop(op, Box::new(ra.view), Box::new(rb.view), Box::new(rc.view)),
                    e,
                    rc.state,
                    ra.renders && rb.renders && rc.renders,
                )
            },
            RawExpr::Finop(op, xs) => {
                let r = set_lowered_list(xs@, polarity, s);
                kept(ExprView::Finop(op, r.views), e, r.state, r.renders)
            },
            RawExpr::CmpChain(chain) => {
                let rs = set_lowered(chain.start, polarity, s);
                let rl = set_lowered_links(chain.assertions@, polarity, rs.state);
                kept(ExprView::CmpChain(Box::new(rs.view), rl.views), e, rl.state, rs.renders && rl.renders)
            },
            RawExpr::LogicChain(chain) => {
                let rs = set_lowered(chain.start, polarity, s);
                let rl = set_lowered_links(chain.assertions@, polarity, rs.state);
                kept(ExprView::LogicChain(Box::new(rs.view), rl.views), e, rl.state, rs.renders && rl.renders)
            },
            RawExpr::Seqop(op, range, body) => {
                let rf = set_lowered(range.from, polarity, s);
                let rt = set_lowered(range.to, polarity, rf.state);
                let rb = set_lowered(body, polarity, rt.state);
                kept(
                    ExprView::Seqop(
                        op,
                        range.index_variable.view_variable(),
                        Box::new(rf.view),
                        Box::new(rt.view),
                        Box::new(rb.view),
                    ),
                    e,
                    rb.state,
                    rf.renders && rt.renders && rb.renders,
                )
            },
            _ => kept(e@, e, s, true),
        }
    }
}

/// `set_lowered` over the dimension expressions of a type.
pub open spec fn set_lowered_type(t: TypeExpr<TypedMetadata>, polarity: bool, s: SetLoweringState) -> TypeSetLowered
    decreases t, 0nat,
{
    match t {
        TypeExpr::Matrix(rows, cols) => {
            let rr = set_lowered(rows, polarity, s);
            let rc = set_lowered(cols, polarity, rr.state);
            TypeSetLowered {
                view: TypeView::Matrix(Box::new(rr.view), Box::new(rc.view)),
                state: rc.state,
                renders: rr.renders && rc.renders,
            }
        },
        TypeExpr::Sequence(element, length) => {
            let re = set_lowered(element, polarity, s);
            let rl = set_lowered(length, polarity, re.state);
            TypeSetLowered {
                view: TypeView::Sequence(Box::new(re.view), Box::new(rl.view)),
                state: rl.state,
                renders: re.renders && rl.renders,
            }
        },
        TypeExpr::SetOf(inner) => {
            let r = set_lowered_type(*inner, polarity, s);
            TypeSetLowered { view: TypeView::SetOf(Box::new(r.view)), state: r.state, renders: r.renders }
        },
        _ => TypeSetLowered { view: type_view(t), state: s, renders: true },
    }
}

/// `set_lowered` over a list, left to right.
pub open spec fn set_lowered_list(xs: Seq<Expr<TypedMetadata>>, polarity: bool, s: SetLoweringState) -> ListSetLowered
    decreases xs, 0nat,
{
    if xs.len() == 0 {
        ListSetLowered { views: Seq::empty(), state: s, renders: true }
    } else {
        let r0 = set_lowered_list(xs.drop_last(), polarity, s);
        let r1 = set_lowered(xs.last(), polarity, r0.state);
        ListSetLowered { views: r0.views.push(r1.view), state: r1.state, renders: r0.renders && r1.renders }
    }
}

/// `set_lowered` over the trees of a list of links, left to right.
pub open spec fn set_lowered_links<O>(xs: Seq<(O, Expr<TypedMetadata>)>, polarity: bool, s: SetLoweringState) -> LinksSetLowered<O>
    decreases xs, 0nat,
{
    if xs.len() == 0 {
        LinksSetLowered { views: Seq::empty(), state: s, renders: true }
    } else {
        let r0 = set_lowered_links(xs.drop_last(), polarity, s);
        let r1 = set_lowered(xs.last().1, polarity, r0.state);
        LinksSetLowered {
            views: r0.views.push((xs.last().0, r1.view)),
            state: r1.state,
            renders: r0.renders && r1.renders,
        }
    }
}


proof fn lemma_distinct_len(s: Seq<Variable>)
    requires
        distinct_variables(s),
    ensures
        variable_set(s).finite(),
        variable_set(s).len() == s.len(),
    decreases s.len(),
{
    if s.len() > 0 {
        lemma_distinct_len(s.drop_last());
        lemma_variable_set(s.drop_last());
        assert(!variable_set(s.drop_last()).contains(s.last().view_variable())) by {
            if variable_set(s.drop_last()).contains(s.last().view_variable()) {
                let i = choose|i: int|
                    0 <= i < s.drop_last().len() && s.drop_last()[i].view_variable() == s.last().view_variable();
                assert(s[i].view_variable() == s[s.len() - 1].view_variable());
            }
        }
    }
}

pub(crate) fn listed(used: &Vec<Variable>, variable: &Variable) -> (found: bool)
    ensures
        found == variable_set(used@).contains(variable.view_variable()),
{
    proof {
        lemma_variable_set(used@);
    }
    let mut i: usize = 0;
    while i < used.len()
        invariant
            i <= used.len(),
            forall|j: int| 0 <= j < i ==> used@[j].view_variable() != variable.view_variable(),
        decreases used.len() - i,
    {
        if used[i].same(variable) {
            proof {
                lemma_variable_set(used@);
                assert(variable_set(used@).contains(used@[i as int].view_variable()));
            }
            return true;
        }
        i = i + 1;
    }
    proof {
        if variable_set(used@).contains(variable.view_variable()) {
            let j = choose|j: int| 0 <= j < used@.len() && used@[j].view_variable() == variable.view_variable();
            assert(used@[j].view_variable() != variable.view_variable());
        }
    }
    false
}

/// The first of `x`, `x'`, `x''`, ... not listed in `used`.
fn fresh_binder(used: &Vec<Variable>) -> (x: Variable)
    requires
        distinct_variables(used@),
    ensures
        x.view_variable() == primed_x(fresh_primes(variable_set(used@), variable_set(used@).len(), 0)),
{
    proof {
        lemma_distinct_len(used@);
    }
    let ghost set = variable_set(used@);
    let mut x = Variable::new("x");
    let mut k: usize = 0;
    proof {
        assert(x.view_variable() == primed_x(0)) by {
            assert(x.annotations@ =~= Seq::new(0, |i: int| Annotation::Prime));
        }
    }
    while k < used.len() && listed(used, &x)
        invariant
            k <= used.len(),
            set == variable_set(used@),
            set.len() == used.len(),
            x.view_variable() == primed_x(k as nat),
            fresh_primes(set, set.len(), 0) == fresh_primes(set, set.len(), k as nat),
        decreases used.len() - k,
    {
        let ghost before = x.annotations@;
        x.annotations.push(Annotation::Prime);
        proof {
            assert(x.annotations@ =~= Seq::new((k + 1) as nat, |i: int| Annotation::Prime));
        }
        k = k + 1;
    }
    x
}

fn typed_node(raw: RawExpr<TypedMetadata>) -> (e: Expr<TypedMetadata>)
    ensures
        e@ == crate::type_resolver::raw_view(raw),
        e.node().raw == raw,
        annotation(e) is None,
{
    let e = Expr::with_metadata(TypedMetadata::default(), raw);
    proof {
        crate::type_resolver::lemma_raw_view(e);
    }
    e
}

fn boolean_node(raw: RawExpr<TypedMetadata>) -> (e: Expr<TypedMetadata>)
    ensures
        e@ == crate::type_resolver::raw_view(raw),
        annotation(e) == Some(TypeView::Bool),
{
    let e = Expr::with_metadata(TypedMetadata::resolved(TypeExpr::Bool), raw);
    proof {
        crate::type_resolver::lemma_raw_view(e);
    }
    e
}

fn pair_product(a: Expr<TypedMetadata>, b: Expr<TypedMetadata>) -> (e: Expr<TypedMetadata>)
    ensures
        e@ == product(a@, b@),
{
    let mut factors: Vec<Expr<TypedMetadata>> = Vec::new();
    factors.push(a);
    factors.push(b);
    proof {
        crate::view::lemma_views(factors@);
        assert(views(factors@) =~= seq![a@, b@]);
    }
    typed_node(RawExpr::Finop(Finop::Times, factors))
}

fn equation_node(a: Expr<TypedMetadata>, b: Expr<TypedMetadata>, typed: bool) -> (e: Expr<TypedMetadata>)
    ensures
        e@ == equation(a@, b@),
        typed ==> annotation(e) == Some(TypeView::Bool),
{
    let mut links: Vec<(Cmp, Expr<TypedMetadata>)> = Vec::new();
    links.push((Cmp::Eq, b));
    proof {
        crate::view::lemma_comparison_views(links@);
        assert(comparison_views(links@) =~= seq![(Cmp::Eq, b@)]);
    }
    if typed {
        boolean_node(RawExpr::CmpChain(CmpChain { start: a, assertions: links }))
    } else {
        typed_node(RawExpr::CmpChain(CmpChain { start: a, assertions: links }))
    }
}

fn variable_expression(v: &Variable) -> (e: Expr<TypedMetadata>)
    ensures
        e@ == variable_node(v.view_variable()),
{
    typed_node(RawExpr::Variable(v.duplicate()))
}

fn membership_node(v: &Variable, t: TypeExpr<TypedMetadata>) -> (e: Expr<TypedMetadata>)
    ensures
        e@ == membership(v.view_variable(), type_view(t)),
{
    typed_node(RawExpr::Binop(Binop::ElementOf, variable_expression(v), typed_node(RawExpr::Type(t))))
}

fn column_type(length: &Expr<()>) -> (t: TypeExpr<TypedMetadata>)
    ensures
        type_view(t) == scalar_column(length@),
{
    TypeExpr::Matrix(length.with_default_metadata(), typed_node(RawExpr::NatLiteral(1)))
}

fn subscripted(name: &str, prefix: &str, operand: &Expr<TypedMetadata>) -> (v: Variable)
    requires
        renderable_verbose(operand@),
    ensures
        v.view_variable() == (VariableView {
            name: name@,
            subscript: prefix@ + latex(operand@, true),
            annotations: Seq::empty(),
        }),
{
    let mut subscript = String::from_str(prefix);
    let text = operand.as_latex_verbose().to_string();
    subscript.append(text.as_str());
    Variable { name: String::from_str(name), non_numeric_subscript: subscript, annotations: Vec::new() }
}



proof fn lemma_list_renders(xs: Seq<Expr<TypedMetadata>>, polarity: bool, s: SetLoweringState, n: int)
    requires
        0 <= n <= xs.len(),
        set_lowered_list(xs, polarity, s).renders,
    ensures
        set_lowered_list(xs.take(n), polarity, s).renders,
    decreases xs.len() - n,
{
    if n < xs.len() {
        lemma_list_renders(xs, polarity, s, n + 1);
        assert(xs.take(n + 1).drop_last() =~= xs.take(n));
    } else {
        assert(xs.take(n) =~= xs);
    }
}

proof fn lemma_links_renders<O>(xs: Seq<(O, Expr<TypedMetadata>)>, polarity: bool, s: SetLoweringState, n: int)
    requires
        0 <= n <= xs.len(),
        set_lowered_links(xs, polarity, s).renders,
    ensures
        set_lowered_links(xs.take(n), polarity, s).renders,
    decreases xs.len() - n,
{
    if n < xs.len() {
        lemma_links_renders(xs, polarity, s, n + 1);
        assert(xs.take(n + 1).drop_last() =~= xs.take(n));
    } else {
        assert(xs.take(n) =~= xs);
    }
}

/// Whether the node applies `\operatorname{Nul}` or `\operatorname{Range}`.
pub open spec fn set_operator(e: Expr<TypedMetadata>) -> bool {
    match e.node().raw {
        RawExpr::Monop(op, _) => op == Monop::Nul || op == Monop::Range,
        _ => false,
    }
}

/// Whether the node is a set comprehension whose predicate is typed Boolean.
pub open spec fn typed_comprehension(e: Expr<TypedMetadata>) -> bool {
    match e.node().raw {
        RawExpr::SetComprehension { predicate, .. } => annotation(predicate) == Some(TypeView::Bool),
        _ => false,
    }
}

/// Lowers `\operatorname{Nul}` and `\operatorname{Range}` to set
/// comprehensions over matrix columns.
pub struct SetOperatorLowering {
    rewrites: usize,
    error: Option<TypeError>,
    supply: DimensionSupply,
}

/// The pass under the name of the null-space lowering it started as.
pub type NulVisitor = SetOperatorLowering;

impl Default for SetOperatorLowering {
    /// A pass with a supply of its own, starting at the first nonce; a pass
    /// over a tree that already holds implicit dimensions continues their
    /// supply with `with_supply` instead.
    fn default() -> (lowering: Self)
        ensures
            lowering.inv(),
            lowering.state() == (SetLoweringState { next_nonce: 0, rewrites: 0, failure: None }),
    {
        SetOperatorLowering { rewrites: 0, error: None, supply: DimensionSupply::new() }
    }
}

impl SetOperatorLowering {
    /// Every failure recorded is an invalid-operand failure.
    pub closed spec fn inv(&self) -> bool {
        self.error is None || self.error matches Some(TypeError::Invalid(_))
    }

    /// The progress of the pass.
    pub closed spec fn state(&self) -> SetLoweringState {
        SetLoweringState {
            next_nonce: self.supply.next_nonce(),
            rewrites: self.rewrites,
            failure: match self.error {
                Some(TypeError::Invalid(message)) => Some(message@),
                _ => None,
            },
        }
    }

    /// A pass whose implicit dimensions continue `supply`.
    pub fn with_supply(supply: DimensionSupply) -> (lowering: Self)
        ensures
            lowering.inv(),
            lowering.state() == (SetLoweringState { next_nonce: supply.next_nonce(), rewrites: 0, failure: None }),
    {
        SetOperatorLowering { rewrites: 0, error: None, supply }
    }

    /// Hands back the supply, moved on past every dimension this pass drew,
    /// so that the next pass continues it and draws none of them again.
    pub fn into_supply(self) -> (supply: DimensionSupply)
        ensures
            supply.next_nonce() == self.state().next_nonce,
    {
        self.supply
    }

    /// The number of rewrites, or the failure met.
    pub fn finish(self) -> (result: Result<usize, TypeError>)
        requires
            self.inv(),
        ensures
            match result {
                Ok(n) => self.state().failure is None && n == self.state().rewrites,
                Err(error) => self.state().failure matches Some(message) && error == TypeError::Invalid(
                    error->Invalid_0,
                ) && error->Invalid_0@ == message,
            },
    {
        match self.error {
            None => Ok(self.rewrites),
            Some(error) => Err(error),
        }
    }

    /// Lowers every set operator of the expression, children first.
    pub fn visit_expr_mut(&mut self, context: VisitContext, node: &mut Expr<TypedMetadata>)
        requires
            old(self).inv(),
            set_lowered(*old(node), context.logical_polarity, old(self).state()).renders,
        ensures
            final(self).inv(),
            final(node)@ == set_lowered(*old(node), context.logical_polarity, old(self).state()).view,
            annotation(*final(node)) == set_lowered(*old(node), context.logical_polarity, old(self).state()).root_type,
            final(self).state() == set_lowered(*old(node), context.logical_polarity, old(self).state()).state,
            old(self).state().failure is None && final(self).state().failure is None && set_operator(*old(node))
                ==> typed_comprehension(*final(node)),
    {
        let lowered = self.lower_expr(node, context.logical_polarity);
        *node = lowered;
    }

    fn fail(&mut self, message: &'static str)
        requires
            old(self).inv(),
        ensures
            final(self).inv(),
            final(self).state() == with_failure(old(self).state(), message@),
    {
        self.error = Some(TypeError::Invalid(message));
    }

    /// The rewrite of one set operator whose operand is already lowered.
    fn rewrite(&mut self, op: Monop, operand: Expr<TypedMetadata>, own: TypedMetadata, polarity: bool) -> (result: Expr<TypedMetadata>)
        requires
            old(self).inv(),
            op == Monop::Nul || op == Monop::Range,
            set_rewrite(
                op,
                SetLowered { view: operand@, root_type: annotation(operand), state: old(self).state(), renders: true },
                own.recorded_type(),
                polarity,
            ).renders,
        ensures
            final(self).inv(),
            result@ == set_rewrite(
                op,
                SetLowered { view: operand@, root_type: annotation(operand), state: old(self).state(), renders: true },
                own.recorded_type(),
                polarity,
            ).view,
            annotation(result) == set_rewrite(
                op,
                SetLowered { view: operand@, root_type: annotation(operand), state: old(self).state(), renders: true },
                own.recorded_type(),
                polarity,
            ).root_type,
            final(self).state() == set_rewrite(
                op,
                SetLowered { view: operand@, root_type: annotation(operand), state: old(self).state(), renders: true },
                own.recorded_type(),
                polarity,
            ).state,
            final(self).state().failure is None ==> old(self).state().failure is None && typed_comprehension(result),
    {
        let ghost s = self.state();
        let ty = match operand.meta().get_type() {
            Ok(t) => t,
            Err(_) => {
                self.fail("set operators require an operand with a resolved symbolic matrix type");
                let unchanged = Expr::with_metadata(own, RawExpr::Monop(op, operand));
                proof {
                    crate::type_resolver::lemma_raw_view(unchanged);
                }
                return unchanged;
            },
        };
        let (rows, cols) = match ty {
            TypeExpr::Matrix(rows, cols) => (rows, cols),
            _ => {
                self.fail("set operators require a matrix operand");
                let unchanged = Expr::with_metadata(own, RawExpr::Monop(op, operand));
                proof {
                    crate::type_resolver::lemma_raw_view(unchanged);
                }
                return unchanged;
            },
        };
        let mut used: Vec<Variable> = Vec::new();
        collect_variables(&operand, &mut used);
        proof {
            assert(variable_set(used@) =~= variables(operand@));
        }
        let x = fresh_binder(&used);
        let (domain, predicate) = match op {
            Monop::Nul => {
                let left = pair_product(crate::deep_clone::deep_clone(&operand), variable_expression(&x));
                let first = ImplicitDimension::fresh(&mut self.supply);
                let second = ImplicitDimension::fresh(&mut self.supply);
                let zero = typed_node(RawExpr::ZeroMatrix { rows: first, cols: second });
                (column_type(&cols), equation_node(left, zero, true))
            },
            _ => if polarity {
                let w = subscripted("w", "preimage of ", &operand);
                let mut parts: Vec<Expr<TypedMetadata>> = Vec::new();
                parts.push(membership_node(&w, column_type(&cols)));
                parts.push(
                    equation_node(
                        pair_product(crate::deep_clone::deep_clone(&operand), variable_expression(&w)),
                        variable_expression(&x),
                        false,
                    ),
                );
                proof {
                    crate::view::lemma_views(parts@);
                    assert(views(parts@) =~= seq![
                        membership(w.view_variable(), scalar_column(cols@)),
                        equation(product(operand@, variable_node(w.view_variable())), variable_node(x.view_variable())),
                    ]);
                }
                (column_type(&rows), boolean_node(RawExpr::Finop(Finop::Exists, parts)))
            } else {
                let z = subscripted("z", "left null of ", &operand);
                let transposed = typed_node(RawExpr::Monop(Monop::Transpose, crate::deep_clone::deep_clone(&operand)));
                let first = ImplicitDimension::fresh(&mut self.supply);
                let second = ImplicitDimension::fresh(&mut self.supply);
                let zero = typed_node(RawExpr::ZeroMatrix { rows: first, cols: second });
                let mut parts: Vec<Expr<TypedMetadata>> = Vec::new();
                parts.push(membership_node(&z, column_type(&rows)));
                parts.push(equation_node(pair_product(transposed, variable_expression(&z)), zero, false));
                parts.push(
                    equation_node(
                        pair_product(
                            typed_node(RawExpr::Monop(Monop::Transpose, variable_expression(&z))),
                            variable_expression(&x),
                        ),
                        typed_node(RawExpr::NatLiteral(0)),
                        false,
                    ),
                );
                proof {
                    crate::view::lemma_views(parts@);
                    assert(views(parts@) =~= seq![
                        membership(z.view_variable(), scalar_column(rows@)),
                        equation(
                            product(ExprView::Monop(Monop::Transpose, Box::new(operand@)), variable_node(z.view_variable())),
                            ExprView::ZeroMatrix(s.next_nonce, nonce_after(s.next_nonce)),
                        ),
                        equation(
                            product(
                                ExprView::Monop(Monop::Transpose, Box::new(variable_node(z.view_variable()))),
                                variable_node(x.view_variable()),
                            ),
                            ExprView::NatLiteral(0),
                        ),
                    ]);
                }
                (column_type(&rows), boolean_node(RawExpr::Finop(Finop::Forall, parts)))
            },
        };
        self.rewrites = if self.rewrites == usize::MAX {
            0
        } else {
            self.rewrites + 1
        };
        typed_node(RawExpr::SetComprehension { variable: x, domain, predicate })
    }
}


impl SetOperatorLowering {
    /// The lowering of an expression, as `set_lowered` describes it.
    #[verifier::rlimit(100)]
    fn lower_expr(&mut self, e: &Expr<TypedMetadata>, polarity: bool) -> (result: Expr<TypedMetadata>)
        requires
            old(self).inv(),
            set_lowered(*e, polarity, old(self).state()).renders,
        ensures
            final(self).inv(),
            result@ == set_lowered(*e, polarity, old(self).state()).view,
            annotation(result) == set_lowered(*e, polarity, old(self).state()).root_type,
            final(self).state() == set_lowered(*e, polarity, old(self).state()).state,
            old(self).state().failure is None && final(self).state().failure is None && set_operator(*e)
                ==> typed_comprehension(result),
        decreases *e, 0nat,
    {
        proof {
            crate::type_resolver::lemma_raw_view(*e);
        }
        if self.error.is_some() {
            return e.share();
        }
        let meta = e.meta().duplicate();
        let raw = match e.raw() {
            RawExpr::SetComprehension { .. } => {
                return e.share();
            },
            RawExpr::StandardBasis { index, dimension } => RawExpr::StandardBasis {
                index: self.lower_expr(index, polarity),
                dimension: *dimension,
            },
            RawExpr::Type(t) => RawExpr::Type(self.lower_type(t, polarity)),
            RawExpr::Matrix(m) => RawExpr::Matrix(Matrix {
                rows: m.rows,
                cols: m.cols,
                elements: self.lower_list(&m.elements, polarity),
            }),
            RawExpr::Monop(op, x) => {
                let lowered = self.lower_expr(x, polarity);
                match op {
                    Monop::Nul | Monop::Range => {
                        return self.rewrite(*op, lowered, meta, polarity);
                    },
                    _ => RawExpr::Monop(*op, lowered),
                }
            },
            RawExpr::Binop(op, a, b) => {
                let a = self.lower_expr(a, polarity);
                let b = self.lower_expr(b, polarity);
                RawExpr::Binop(*op, a, b)
            },
            RawExpr::Triop(op, a, b, c) => {
                let a = self.lower_expr(a, polarity);
                let b = self.lower_expr(b, polarity);
                let c = self.lower_expr(c, polarity);
                RawExpr::Triop(*op, a, b, c)
            },
            RawExpr::Finop(op, xs) => RawExpr::Finop(*op, self.lower_list(xs, polarity)),
            RawExpr::CmpChain(chain) => {
                let start = self.lower_expr(&chain.start, polarity);
                let assertions = self.lower_comparisons(&chain.assertions, polarity);
                RawExpr::CmpChain(CmpChain { start, assertions })
            },
            RawExpr::LogicChain(chain) => {
                let start = self.lower_expr(&chain.start, polarity);
                let assertions = self.lower_logic(&chain.assertions, polarity);
                RawExpr::LogicChain(LogicChain { start, assertions })
            },
            RawExpr::Seqop(op, range, body) => {
                let from = self.lower_expr(&range.from, polarity);
                let to = self.lower_expr(&range.to, polarity);
                let body = self.lower_expr(body, polarity);
                RawExpr::Seqop(*op, Range { index_variable: range.index_variable.duplicate(), from, to }, body)
            },
            _ => {
                return e.share();
            },
        };
        let result = Expr::with_metadata(meta, raw);
        proof {
            crate::type_resolver::lemma_raw_view(result);
        }
        result
    }

    fn lower_type(&mut self, t: &TypeExpr<TypedMetadata>, polarity: bool) -> (result: TypeExpr<TypedMetadata>)
        requires
            old(self).inv(),
            set_lowered_type(*t, polarity, old(self).state()).renders,
        ensures
            final(self).inv(),
            type_view(result) == set_lowered_type(*t, polarity, old(self).state()).view,
            final(self).state() == set_lowered_type(*t, polarity, old(self).state()).state,
        decreases *t, 0nat,
    {
        match t {
            TypeExpr::Matrix(rows, cols) => {
                let rows = self.lower_expr(rows, polarity);
                let cols = self.lower_expr(cols, polarity);
                TypeExpr::Matrix(rows, cols)
            },
            TypeExpr::Sequence(element, length) => {
                let element = self.lower_expr(element, polarity);
                let length = self.lower_expr(length, polarity);
                TypeExpr::Sequence(element, length)
            },
            TypeExpr::SetOf(inner) => {
                let inner: &TypeExpr<TypedMetadata> = inner;
                TypeExpr::SetOf(Box::new(self.lower_type(inner, polarity)))
            },
            TypeExpr::Bool => TypeExpr::Bool,
            TypeExpr::Nat => TypeExpr::Nat,
            TypeExpr::Int => TypeExpr::Int,
            TypeExpr::Real => TypeExpr::Real,
        }
    }

    fn lower_list(&mut self, xs: &Vec<Expr<TypedMetadata>>, polarity: bool) -> (result: Vec<Expr<TypedMetadata>>)
        requires
            old(self).inv(),
            set_lowered_list(xs@, polarity, old(self).state()).renders,
        ensures
            final(self).inv(),
            views(result@) == set_lowered_list(xs@, polarity, old(self).state()).views,
            final(self).state() == set_lowered_list(xs@, polarity, old(self).state()).state,
        decreases xs@, 1nat,
    {
        let ghost s0 = self.state();
        let mut result: Vec<Expr<TypedMetadata>> = Vec::new();
        let mut i: usize = 0;
        proof {
            assert(xs@.take(0) =~= Seq::<Expr<TypedMetadata>>::empty());
            assert(views(result@) =~= Seq::empty());
        }
        while i < xs.len()
            invariant
                i <= xs.len(),
                self.inv(),
                set_lowered_list(xs@, polarity, s0).renders,
                views(result@) == set_lowered_list(xs@.take(i as int), polarity, s0).views,
                self.state() == set_lowered_list(xs@.take(i as int), polarity, s0).state,
            decreases xs.len() - i,
        {
            proof {
                lemma_list_renders(xs@, polarity, s0, i + 1);
                assert(xs@.take(i + 1).drop_last() =~= xs@.take(i as int));
                assert(xs@.take(i + 1).last() == xs@[i as int]);
                assert(decreases_to!(xs@ => xs@[i as int]));
            }
            let ghost before = result@;
            let x = &xs[i];
            let lowered = self.lower_expr(x, polarity);
            result.push(lowered);
            proof {
                assert(result@.drop_last() =~= before);
            }
            i = i + 1;
        }
        proof {
            assert(xs@.take(xs.len() as int) =~= xs@);
        }
        result
    }

    fn lower_comparisons(&mut self, xs: &Vec<(Cmp, Expr<TypedMetadata>)>, polarity: bool) -> (result: Vec<(Cmp, Expr<TypedMetadata>)>)
        requires
            old(self).inv(),
            set_lowered_links(xs@, polarity, old(self).state()).renders,
        ensures
            final(self).inv(),
            comparison_views(result@) == set_lowered_links(xs@, polarity, old(self).state()).views,
            final(self).state() == set_lowered_links(xs@, polarity, old(self).state()).state,
        decreases xs@, 1nat,
    {
        let ghost s0 = self.state();
        let mut result: Vec<(Cmp, Expr<TypedMetadata>)> = Vec::new();
        let mut i: usize = 0;
        proof {
            assert(xs@.take(0) =~= Seq::<(Cmp, Expr<TypedMetadata>)>::empty());
            assert(comparison_views(result@) =~= Seq::empty());
        }
        while i < xs.len()
            invariant
                i <= xs.len(),
                self.inv(),
                set_lowered_links(xs@, polarity, s0).renders,
                comparison_views(result@) == set_lowered_links(xs@.take(i as int), polarity, s0).views,
                self.state() == set_lowered_links(xs@.take(i as int), polarity, s0).state,
            decreases xs.len() - i,
        {
            proof {
                lemma_links_renders(xs@, polarity, s0, i + 1);
                assert(xs@.take(i + 1).drop_last() =~= xs@.take(i as int));
                assert(xs@.take(i + 1).last() == xs@[i as int]);
                assert(decreases_to!(xs@ => xs@[i as int]));
                assert(decreases_to!(xs@ => xs@[i as int].1));
                crate::view::lemma_comparison_views(xs@);
            }
            let ghost before = result@;
            let (op, x) = &xs[i];
            let lowered = self.lower_expr(x, polarity);
            result.push((*op, lowered));
            proof {
                assert(result@.drop_last() =~= before);
            }
            i = i + 1;
        }
        proof {
            assert(xs@.take(xs.len() as int) =~= xs@);
        }
        result
    }

    fn lower_logic(&mut self, xs: &Vec<(Logic, Expr<TypedMetadata>)>, polarity: bool) -> (result: Vec<(Logic, Expr<TypedMetadata>)>)
        requires
            old(self).inv(),
            set_lowered_links(xs@, polarity, old(self).state()).renders,
        ensures
            final(self).inv(),
            logic_views(result@) == set_lowered_links(xs@, polarity, old(self).state()).views,
            final(self).state() == set_lowered_links(xs@, polarity, old(self).state()).state,
        decreases xs@, 1nat,
    {
        let ghost s0 = self.state();
        let mut result: Vec<(Logic, Expr<TypedMetadata>)> = Vec::new();
        let mut i: usize = 0;
        proof {
            assert(xs@.take(0) =~= Seq::<(Logic, Expr<TypedMetadata>)>::empty());
            assert(logic_views(result@) =~= Seq::empty());
        }
        while i < xs.len()
            invariant
                i <= xs.len(),
                self.inv(),
                set_lowered_links(xs@, polarity, s0).renders,
                logic_views(result@) == set_lowered_links(xs@.take(i as int), polarity, s0).views,
                self.state() == set_lowered_links(xs@.take(i as int), polarity, s0).state,
            decreases xs.len() - i,
        {
            proof {
                lemma_links_renders(xs@, polarity, s0, i + 1);
                assert(xs@.take(i + 1).drop_last() =~= xs@.take(i as int));
                assert(xs@.take(i + 1).last() == xs@[i as int]);
                assert(decreases_to!(xs@ => xs@[i as int]));
                assert(decreases_to!(xs@ => xs@[i as int].1));
                crate::view::lemma_logic_views(xs@);
            }
            let ghost before = result@;
            let (op, x) = &xs[i];
            let lowered = self.lower_expr(x, polarity);
            result.push((*op, lowered));
            proof {
                assert(result@.drop_last() =~= before);
            }
            i = i + 1;
        }
        proof {
            assert(xs@.take(xs.len() as int) =~= xs@);
        }
        result
    }
}

/// The variable a declaration `v \in \mathbb{R}^{h}` declares, with the
/// height `h` of its column type.
pub open spec fn declared_column(d: ExprView) -> Option<(VariableView, ExprView)> {
    match d {
        ExprView::Binop(op, v, t) => if op == Binop::ElementOf {
            match (*v, *t) {
                (ExprView::Variable(name), ExprView::Type(TypeView::Matrix(h, w))) => if *w == ExprView::NatLiteral(1) {
                    Some((name, *h))
                } else {
                    None
                },
                _ => None,
            }
        } else {
            None
        },
        _ => None,
    }
}

/// Whether `e` is the product of `a` with the variable `v`, in that order.
pub open spec fn times_variable(e: ExprView, a: ExprView, v: VariableView) -> bool {
    e == ExprView::Finop(Finop::Times, seq![a, ExprView::Variable(v)])
}

/// Whether a comprehension's predicate is `A x = 0` for its binder `x`, so
/// that `A x` needs `x` to have as many rows as `A` has columns.
pub open spec fn kernel_predicate_shape(p: ExprView, a: ExprView, x: VariableView) -> bool {
    match p {
        ExprView::CmpChain(left, links) => times_variable(*left, a, x) && links.len() == 1 && links[0].0 == Cmp::Eq,
        _ => false,
    }
}

/// Whether a predicate is `\exists w \in \mathbb{R}^{h}, A w = x` with `h`
/// the number of columns `cols` of `A`: the witness fits `A`.
pub open spec fn preimage_shape(p: ExprView, a: ExprView, cols: ExprView, x: VariableView) -> bool {
    match p {
        ExprView::Finop(op, parts) => {
            &&& op == Finop::Exists
            &&& parts.len() == 2
            &&& match declared_column(parts[0]) {
                Some((w, h)) => h == cols && match parts[1] {
                    ExprView::CmpChain(left, links) => times_variable(*left, a, w) && links.len() == 1 && links[0]
                        == (Cmp::Eq, ExprView::Variable(x)),
                    _ => false,
                },
                None => false,
            }
        },
        _ => false,
    }
}

/// Whether a predicate starts `\forall z \in \mathbb{R}^{h}, A^\top z = \ldots`
/// with `h` the number of rows `rows` of `A`: the vector fits `A^\top`.
pub open spec fn left_null_shape(p: ExprView, a: ExprView, rows: ExprView) -> bool {
    match p {
        ExprView::Finop(op, parts) => {
            &&& op == Finop::Forall
            &&& parts.len() == 3
            &&& match declared_column(parts[0]) {
                Some((z, h)) => h == rows && match parts[1] {
                    ExprView::CmpChain(left, _) => times_variable(
                        *left,
                        ExprView::Monop(Monop::Transpose, Box::new(a)),
                        z,
                    ),
                    _ => false,
                },
                None => false,
            }
        },
        _ => false,
    }
}

/// Set operators lower to well-dimensioned comprehensions: for an operand
/// `A` of type `r x c`, `Nul(A)` ranges over columns of height `c` with
/// `A x = 0`; `Range(A)` ranges over columns of height `r`, read positively
/// through a witness `w` of height `c` with `A w = x`, and negatively through
/// a vector `z` of height `r` with `A^\top z = 0`; every product so formed
/// is defined.
pub proof fn law_set_lowering_is_well_dimensioned(
    op: Monop,
    operand: SetLowered,
    own: Option<TypeView>,
    polarity: bool,
    rows: ExprView,
    cols: ExprView,
)
    requires
        op == Monop::Nul || op == Monop::Range,
        operand.root_type == Some(TypeView::Matrix(Box::new(rows), Box::new(cols))),
    ensures
        match set_rewrite(op, operand, own, polarity).view {
            ExprView::SetComprehension(x, domain, predicate) => {
                &&& domain == scalar_column(if op == Monop::Nul { cols } else { rows })
                &&& op == Monop::Nul ==> kernel_predicate_shape(*predicate, operand.view, x)
                &&& op == Monop::Range && polarity ==> preimage_shape(*predicate, operand.view, cols, x)
                &&& op == Monop::Range && !polarity ==> left_null_shape(*predicate, operand.view, rows)
            },
            _ => false,
        },
{
}

} // verus!
