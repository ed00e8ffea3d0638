//! Principal roots: square roots and 2-norms become new variables, recorded
//! as side conditions that define them by their squares.
use vstd::prelude::*;

use crate::context::{Existence, SideCondition, VisitContext};
use crate::preprocessing::{name_of, rendered};
use crate::quantifier_lowering::{
    copy_ranges, in_maps, indexed, indexed_introduced_variable, lift_fits, lift_type, lifted, same_ranges, wrap_in_maps,
};
use crate::to_tex::{latex, renderable};
use crate::type_resolver::{annotation, MaybeTyped, TypeError, TypedMetadata};
use crate::view::{type_view, views, ExprView, TypeView, VariableView};
use crate::{Binop, Cmp, CmpChain, Expr, Finop, Monop, RawExpr, Range, TypeExpr, Variable};

verus! {

/// How the existence of a principal root is known.
#[derive(Clone, Copy, PartialEq, Eq, Structural)]
pub enum RootExistence {
    Guaranteed,
    Checkable,
    Assumed,
}

/// The comparison `a op b`.
pub open spec fn compared(a: ExprView, op: Cmp, b: ExprView) -> ExprView {
    ExprView::CmpChain(Box::new(a), seq![(op, b)])
}

/// The name of the root of what `source` computes, in the maps of the
/// ranges around.
pub open spec fn root_name(source: ExprView, ranges: Seq<Range<()>>) -> VariableView {
    VariableView { name: latex(in_maps(source, ranges), true), subscript: Seq::empty(), annotations: Seq::empty() }
}

/// The assertions defining the root `r` of `radicand`: its square is the
/// radicand, and a real root is nonnegative.
pub open spec fn root_definitions(r: ExprView, radicand: ExprView, t: TypeView) -> Seq<ExprView> {
    let square = compared(ExprView::Finop(Finop::Times, seq![r, r]), Cmp::Eq, radicand);
    if t == TypeView::Real {
        seq![square, compared(r, Cmp::Ge, ExprView::NatLiteral(0))]
    } else {
        seq![square]
    }
}

/// `c` records the root of `radicand` standing for `source`, of type `t`
/// under `ranges`: named by the source in its maps, displayed as the source,
/// of the lifted type, defined by its square, and existing as `existence`
/// says (a real root of a scalar exists unless the radicand is negative).
pub open spec fn root_condition(
    c: SideCondition<TypedMetadata>,
    source: ExprView,
    radicand: ExprView,
    t: TypeView,
    existence: RootExistence,
    ranges: Seq<Range<()>>,
) -> bool {
    let name = root_name(source, ranges);
    &&& name_of(c) == name
    &&& c.display_name@ == latex(source, false)
    &&& type_view(c.introduced_type) == lifted(t, ranges)
    &&& same_ranges(c.active_ranges@, ranges)
    &&& views(c.defining_assertions@) == root_definitions(indexed(name, ranges), radicand, t)
    &&& match existence {
        RootExistence::Guaranteed => c.existence is Guaranteed,
        RootExistence::Assumed => c.existence is Assumed,
        RootExistence::Checkable => c.existence matches Existence::Checkable(xs) && views(xs@) == seq![
            compared(radicand, Cmp::Lt, ExprView::NatLiteral(0)),
        ],
    }
}

/// A recorded condition may meet the root described: same type, ranges,
/// display, rendered definitions and existence.
pub open spec fn meets_root(
    c: SideCondition<TypedMetadata>,
    source: ExprView,
    radicand: ExprView,
    t: TypeView,
    existence: RootExistence,
    ranges: Seq<Range<()>>,
) -> bool {
    let name = root_name(source, ranges);
    &&& type_view(c.introduced_type) == lifted(t, ranges)
    &&& same_ranges(c.active_ranges@, ranges)
    &&& c.display_name@ == latex(source, false)
    &&& rendered(c.defining_assertions@) == root_definitions(indexed(name, ranges), radicand, t).map_values(
        |e: ExprView| latex(e, false),
    )
    &&& match (existence, c.existence) {
        (RootExistence::Guaranteed, Existence::Guaranteed) | (RootExistence::Assumed, Existence::Assumed) => true,
        (RootExistence::Checkable, Existence::Checkable(xs)) => rendered(xs@) == seq![
            latex(compared(radicand, Cmp::Lt, ExprView::NatLiteral(0)), false),
        ],
        _ => false,
    }
}

/// Every recorded condition of the root's name meets it.
pub open spec fn roots_accept(
    conditions: Seq<SideCondition<TypedMetadata>>,
    source: ExprView,
    radicand: ExprView,
    t: TypeView,
    existence: RootExistence,
    ranges: Seq<Range<()>>,
) -> bool {
    forall|i: int|
        0 <= i < conditions.len() && name_of(#[trigger] conditions[i]) == root_name(source, ranges) ==> meets_root(
            conditions[i],
            source,
            radicand,
            t,
            existence,
            ranges,
        )
}

/// The texts of a root can be rendered and its type lifted.
pub open spec fn root_fits(source: ExprView, t: TypeView, ranges: Seq<Range<()>>) -> bool {
    &&& renderable(in_maps(source, ranges), true)
    &&& renderable(source, false)
    &&& lift_fits(t, ranges)
}

/// Whether a condition of this name is recorded.
pub open spec fn holds_name(conditions: Seq<SideCondition<TypedMetadata>>, v: VariableView) -> bool {
    exists|i: int| 0 <= i < conditions.len() && name_of(#[trigger] conditions[i]) == v
}

/// `after` is `before` with the condition of the root appended unless its
/// name is already held.
pub open spec fn roots_recorded(
    before: Seq<SideCondition<TypedMetadata>>,
    after: Seq<SideCondition<TypedMetadata>>,
    source: ExprView,
    radicand: ExprView,
    t: TypeView,
    existence: RootExistence,
    ranges: Seq<Range<()>>,
) -> bool {
    if holds_name(before, root_name(source, ranges)) {
        after == before
    } else {
        &&& after.len() == before.len() + 1
        &&& after.drop_last() == before
        &&& root_condition(after.last(), source, radicand, t, existence, ranges)
    }
}

/// The comparison `a op b`, its metadata left for typing.
fn comparison(a: Expr<TypedMetadata>, op: Cmp, b: Expr<TypedMetadata>) -> (e: Expr<TypedMetadata>)
    ensures
        e@ == compared(a@, op, b@),
{
    let ghost b_view = b@;
    let assertions = vec![(op, b)];
    proof {
        crate::view::lemma_comparison_views(assertions@);
        assert(crate::view::comparison_views(assertions@) =~= seq![(op, b_view)]);
    }
    Expr::new(RawExpr::CmpChain(CmpChain { start: a, assertions }))
}

/// The side conditions of the principal roots introduced so far.
pub struct PrincipalRootRegistry {
    pub side_conditions: Vec<SideCondition<TypedMetadata>>,
}

impl PrincipalRootRegistry {
    pub fn new() -> (registry: Self)
        ensures
            registry.side_conditions@.len() == 0,
    {
        PrincipalRootRegistry { side_conditions: Vec::new() }
    }

    /// The variable standing for the principal root of `radicand` where
    /// `source` stands, recorded unless a root of its name already is.
    pub fn lower(
        &mut self,
        context: &VisitContext,
        source: &Expr<TypedMetadata>,
        radicand: Expr<TypedMetadata>,
        ty: TypeExpr<()>,
        existence: RootExistence,
    ) -> (introduced: Expr<TypedMetadata>)
        requires
            root_fits(source@, type_view(ty), context.active_ranges@),
            roots_accept(old(self).side_conditions@, source@, radicand@, type_view(ty), existence, context.active_ranges@),
        ensures
            introduced@ == indexed(root_name(source@, context.active_ranges@), context.active_ranges@),
            roots_recorded(
                old(self).side_conditions@,
                final(self).side_conditions@,
                source@,
                radicand@,
                type_view(ty),
                existence,
                context.active_ranges@,
            ),
    {
        let ghost ranges = context.active_ranges@;
        let plain_source: Expr<()> = source.with_default_metadata();
        let mapped = wrap_in_maps(&plain_source, &context.active_ranges);
        let name = mapped.as_latex_verbose().to_string();
        let introduced_variable = Variable::new(name.as_str());
        let ghost name_view = introduced_variable.view_variable();
        let is_real = match ty {
            TypeExpr::Real => true,
            _ => false,
        };
        let introduced_type = lift_type(ty, &context.active_ranges);
        let plain: Expr<()> = indexed_introduced_variable(introduced_variable.duplicate(), &context.active_ranges);
        let introduced: Expr<TypedMetadata> = plain.with_default_metadata();
        let ghost r = introduced@;
        let factors = vec![introduced.share(), introduced.share()];
        proof {
            crate::view::lemma_views(factors@);
            assert(views(factors@) =~= seq![r, r]);
        }
        let square: Expr<TypedMetadata> = Expr::new(RawExpr::Finop(Finop::Times, factors));
        let mut defining_assertions: Vec<Expr<TypedMetadata>> = Vec::new();
        defining_assertions.push(comparison(square, Cmp::Eq, radicand.share()));
        if is_real {
            let zero: Expr<TypedMetadata> = Expr::new(RawExpr::NatLiteral(0));
            defining_assertions.push(comparison(introduced.share(), Cmp::Ge, zero));
        }
        proof {
            crate::view::lemma_views(defining_assertions@);
            assert(views(defining_assertions@) =~= root_definitions(r, radicand@, type_view(ty)));
        }
        let recorded_existence = match existence {
            RootExistence::Guaranteed => Existence::Guaranteed,
            RootExistence::Checkable => {
                let zero: Expr<TypedMetadata> = Expr::new(RawExpr::NatLiteral(0));
                let negative = comparison(radicand.share(), Cmp::Lt, zero);
                let checks = vec![negative];
                proof {
                    crate::view::lemma_views(checks@);
                    assert(views(checks@) =~= seq![compared(radicand@, Cmp::Lt, ExprView::NatLiteral(0))]);
                }
                Existence::Checkable(checks)
            },
            RootExistence::Assumed => Existence::Assumed,
        };
        let condition = SideCondition {
            introduced_variable: introduced_variable.duplicate(),
            display_name: source.as_latex().to_string(),
            introduced_type,
            active_ranges: copy_ranges(&context.active_ranges),
            defining_assertions,
            existence: recorded_existence,
        };
        let mut found = false;
        let mut k: usize = 0;
        while k < self.side_conditions.len()
            invariant
                k <= self.side_conditions@.len(),
                name_view == introduced_variable.view_variable(),
                found == exists|m: int| 0 <= m < k && name_of(#[trigger] self.side_conditions@[m]) == name_view,
            decreases self.side_conditions@.len() - k,
        {
            if self.side_conditions[k].introduced_variable.same(&introduced_variable) {
                found = true;
            }
            k = k + 1;
        }
        proof {
            assert(name_view == root_name(source@, ranges));
            assert(root_condition(condition, source@, radicand@, type_view(ty), existence, ranges));
        }
        proof {
            assert(found == holds_name(old(self).side_conditions@, root_name(source@, ranges)));
        }
        if !found {
            self.side_conditions.push(condition);
            proof {
                assert(self.side_conditions@.drop_last() =~= old(self).side_conditions@);
            }
        }
        introduced
    }
}


/// `x^T x` read as a real number: the square of the 2-norm of `x`.
pub open spec fn squared_norm(x: ExprView) -> ExprView {
    ExprView::Binop(
        Binop::Cast,
        Box::new(ExprView::Type(TypeView::Real)),
        Box::new(ExprView::Finop(Finop::Times, seq![ExprView::Monop(Monop::Transpose, Box::new(x)), x])),
    )
}

/// Whether the node is the literal `n`.
pub open spec fn literal(e: Expr<TypedMetadata>, n: u64) -> bool {
    e.node().raw matches RawExpr::NatLiteral(k) && k == n
}

/// The operand `x` of a node `\|x\|_2^2`.
pub open spec fn squared_norm_operand(node: Expr<TypedMetadata>) -> Option<Expr<TypedMetadata>> {
    match node.node().raw {
        RawExpr::Binop(Binop::Power, norm, exponent) => match norm.node().raw {
            RawExpr::Monop(Monop::Norm2, x) => if literal(exponent, 2) {
                Some(x)
            } else {
                None
            },
            _ => None,
        },
        _ => None,
    }
}

/// The operand `x` of a node `\|x\|_2`.
pub open spec fn norm_operand(node: Expr<TypedMetadata>) -> Option<Expr<TypedMetadata>> {
    match node.node().raw {
        RawExpr::Monop(Monop::Norm2, x) => Some(x),
        _ => None,
    }
}

/// The base `b` of a node `b^{1/2}`.
pub open spec fn square_root_base(node: Expr<TypedMetadata>) -> Option<Expr<TypedMetadata>> {
    match node.node().raw {
        RawExpr::Binop(Binop::Power, base, exponent) => match exponent.node().raw {
            RawExpr::Binop(Binop::Div, numerator, denominator) => if literal(numerator, 1) && literal(denominator, 2) {
                Some(base)
            } else {
                None
            },
            _ => None,
        },
        _ => None,
    }
}

/// A norm operand whose type is known and is not a matrix.
pub open spec fn rejected_norm_operand(x: Expr<TypedMetadata>) -> bool {
    annotation(x) matches Some(t) && !(t is Matrix)
}

/// The message of a norm over something other than a column.
pub open spec fn norm_message() -> Seq<char> {
    "2-norm requires a real column matrix"@
}

/// The message of a square root of something other than a real or a matrix.
pub open spec fn root_message() -> Seq<char> {
    "square root requires a real scalar or square real matrix"@
}

/// The cast `x^T x` to a real.
fn squared_norm_of(x: &Expr<TypedMetadata>) -> (e: Expr<TypedMetadata>)
    ensures
        e@ == squared_norm(x@),
{
    let ghost v = x@;
    let transpose: Expr<TypedMetadata> = Expr::new(RawExpr::Monop(Monop::Transpose, x.share()));
    let factors = vec![transpose, x.share()];
    proof {
        crate::view::lemma_views(factors@);
        assert(views(factors@) =~= seq![ExprView::Monop(Monop::Transpose, Box::new(v)), v]);
    }
    let product: Expr<TypedMetadata> = Expr::new(RawExpr::Finop(Finop::Times, factors));
    let real_type: Expr<TypedMetadata> = Expr::new(RawExpr::Type(TypeExpr::Real));
    proof {
        crate::type_resolver::lemma_raw_view(product);
        crate::type_resolver::lemma_raw_view(real_type);
        assert(real_type@ == ExprView::Type(TypeView::Real));
    }
    let e = Expr::new(RawExpr::Binop(Binop::Cast, real_type, product));
    proof {
        crate::type_resolver::lemma_raw_view(e);
    }
    e
}

/// The operand of `\|x\|_2^2`, if the node is one.
fn squared_norm_operand_of(node: &Expr<TypedMetadata>) -> (x: Option<Expr<TypedMetadata>>)
    ensures
        x == squared_norm_operand(*node),
{
    match node.raw() {
        RawExpr::Binop(Binop::Power, norm, exponent) => match norm.raw() {
            RawExpr::Monop(Monop::Norm2, x) => match exponent.raw() {
                RawExpr::NatLiteral(k) => if *k == 2 {
                    Some(x.share())
                } else {
                    None
                },
                _ => None,
            },
            _ => None,
        },
        _ => None,
    }
}

/// The base of `b^{1/2}`, if the node is one.
fn square_root_base_of(node: &Expr<TypedMetadata>) -> (base: Option<Expr<TypedMetadata>>)
    ensures
        base == square_root_base(*node),
{
    match node.raw() {
        RawExpr::Binop(Binop::Power, base, exponent) => match exponent.raw() {
            RawExpr::Binop(Binop::Div, numerator, denominator) => match (numerator.raw(), denominator.raw()) {
                (RawExpr::NatLiteral(k), RawExpr::NatLiteral(m)) => if *k == 1 && *m == 2 {
                    Some(base.share())
                } else {
                    None
                },
                _ => None,
            },
            _ => None,
        },
        _ => None,
    }
}

/// Rewrites `\|x\|_2^2` into `x^T x` read as a real.
pub struct Norm2SquaredVisitor {
    pub rewrites: usize,
    pub error: Option<TypeError>,
}

impl Default for Norm2SquaredVisitor {
    fn default() -> (visitor: Self)
        ensures
            visitor.rewrites == 0,
            visitor.error is None,
    {
        Norm2SquaredVisitor { rewrites: 0, error: None }
    }
}

impl Norm2SquaredVisitor {
    /// The number of rewrites, or the failure met.
    pub fn finish(self) -> (result: Result<usize, TypeError>)
        ensures
            match result {
                Ok(n) => self.error is None && n == self.rewrites,
                Err(e) => self.error == Some(e),
            },
    {
        match self.error {
            None => Ok(self.rewrites),
            Some(error) => Err(error),
        }
    }

    /// Rewrites the node, its operands already rewritten: `\|x\|_2^2`
    /// becomes `x^T x` read as a real, keeping the node's metadata, unless
    /// `x` is known not to be a matrix, which fails. Nothing happens after a
    /// failure, or at a set comprehension.
    pub fn lower_node(&mut self, context: &VisitContext, node: &mut Expr<TypedMetadata>)
        requires
            old(self).rewrites < usize::MAX,
        ensures
            old(self).error is Some || old(node).node().raw is SetComprehension ==> *final(node) == *old(node)
                && *final(self) == *old(self),
            old(self).error is None && !(old(node).node().raw is SetComprehension) ==> match squared_norm_operand(
                *old(node),
            ) {
                None => *final(node) == *old(node) && *final(self) == *old(self),
                Some(x) => if rejected_norm_operand(x) {
                    &&& *final(node) == *old(node)
                    &&& final(self).error matches Some(TypeError::Invalid(m)) && m@ == norm_message()
                    &&& final(self).rewrites == old(self).rewrites
                } else {
                    &&& final(node)@ == squared_norm(x@)
                    &&& final(node).node().meta == old(node).node().meta
                    &&& final(self).error is None
                    &&& final(self).rewrites == old(self).rewrites + 1
                },
            },
    {
        if self.error.is_some() {
            return;
        }
        if let RawExpr::SetComprehension { .. } = node.raw() {
            return;
        }
        let operand = match squared_norm_operand_of(node) {
            Some(x) => x,
            None => return,
        };
        if let Ok(ty) = operand.meta().get_type() {
            let is_matrix = match ty {
                TypeExpr::Matrix(_, _) => true,
                _ => false,
            };
            if !is_matrix {
                self.error = Some(TypeError::Invalid("2-norm requires a real column matrix"));
                return;
            }
        }
        let core = squared_norm_of(&operand);
        let raw = match core.raw() {
            RawExpr::Binop(op, a, b) => RawExpr::Binop(*op, a.share(), b.share()),
            _ => RawExpr::Hole,
        };
        proof {
            crate::type_resolver::lemma_raw_view(core);
        }
        let rewritten = Expr::with_metadata(node.meta().duplicate(), raw);
        proof {
            crate::type_resolver::lemma_raw_view(rewritten);
        }
        *node = rewritten;
        self.rewrites = self.rewrites + 1;
    }
}

/// Replaces each 2-norm by a variable standing for it, defined by its
/// square.
pub struct Norm2Visitor {
    pub roots: PrincipalRootRegistry,
    pub rewrites: usize,
    pub error: Option<TypeError>,
}

impl Default for Norm2Visitor {
    fn default() -> (visitor: Self)
        ensures
            visitor.roots.side_conditions@.len() == 0,
            visitor.rewrites == 0,
            visitor.error is None,
    {
        Norm2Visitor { roots: PrincipalRootRegistry::new(), rewrites: 0, error: None }
    }
}

impl Norm2Visitor {
    /// The number of rewrites and the roots introduced, or the failure met.
    pub fn finish(self) -> (result: Result<(usize, Vec<SideCondition<TypedMetadata>>), TypeError>)
        ensures
            match result {
                Ok((n, conditions)) => self.error is None && n == self.rewrites && conditions@
                    == self.roots.side_conditions@,
                Err(e) => self.error == Some(e),
            },
    {
        match self.error {
            None => Ok((self.rewrites, self.roots.side_conditions)),
            Some(error) => Err(error),
        }
    }

    /// Hands over the roots introduced so far.
    pub fn side_conditions(&mut self) -> (conditions: Vec<SideCondition<TypedMetadata>>)
        ensures
            conditions@ == old(self).roots.side_conditions@,
            final(self).roots.side_conditions@.len() == 0,
            final(self).rewrites == old(self).rewrites,
            final(self).error == old(self).error,
    {
        let mut taken: Vec<SideCondition<TypedMetadata>> = Vec::new();
        std::mem::swap(&mut taken, &mut self.roots.side_conditions);
        taken
    }

    /// Replaces the node `\|x\|_2`, its operands already rewritten, by the
    /// variable standing for it: a real root of `x^T x` that always exists,
    /// recorded unless its name already is. An operand known not to be a
    /// matrix fails. Nothing happens after a failure, or at a set
    /// comprehension.
    pub fn lower_node(&mut self, context: &VisitContext, node: &mut Expr<TypedMetadata>)
        requires
            old(self).rewrites < usize::MAX,
            norm_operand(*old(node)) matches Some(x) ==> {
                &&& root_fits(old(node)@, TypeView::Real, context.active_ranges@)
                &&& roots_accept(
                    old(self).roots.side_conditions@,
                    old(node)@,
                    squared_norm(x@),
                    TypeView::Real,
                    RootExistence::Guaranteed,
                    context.active_ranges@,
                )
            },
        ensures
            old(self).error is Some || old(node).node().raw is SetComprehension ==> *final(node) == *old(node)
                && *final(self) == *old(self),
            old(self).error is None && !(old(node).node().raw is SetComprehension) ==> match norm_operand(*old(node)) {
                None => *final(node) == *old(node) && *final(self) == *old(self),
                Some(x) => if rejected_norm_operand(x) {
                    &&& *final(node) == *old(node)
                    &&& final(self).error matches Some(TypeError::Invalid(m)) && m@ == norm_message()
                    &&& final(self).rewrites == old(self).rewrites
                    &&& final(self).roots.side_conditions@ == old(self).roots.side_conditions@
                } else {
                    &&& final(node)@ == indexed(root_name(old(node)@, context.active_ranges@), context.active_ranges@)
                    &&& final(self).error is None
                    &&& final(self).rewrites == old(self).rewrites + 1
                    &&& roots_recorded(
                        old(self).roots.side_conditions@,
                        final(self).roots.side_conditions@,
                        old(node)@,
                        squared_norm(x@),
                        TypeView::Real,
                        RootExistence::Guaranteed,
                        context.active_ranges@,
                    )
                },
            },
    {
        if self.error.is_some() {
            return;
        }
        let operand = match node.raw() {
            RawExpr::Monop(Monop::Norm2, x) => x.share(),
            _ => return,
        };
        if let Ok(ty) = operand.meta().get_type() {
            let is_matrix = match ty {
                TypeExpr::Matrix(_, _) => true,
                _ => false,
            };
            if !is_matrix {
                self.error = Some(TypeError::Invalid("2-norm requires a real column matrix"));
                return;
            }
        }
        let radicand = squared_norm_of(&operand);
        let introduced = self.roots.lower(context, node, radicand, TypeExpr::Real, RootExistence::Guaranteed);
        *node = introduced;
        self.rewrites = self.rewrites + 1;
    }
}

/// Replaces each square root `b^{1/2}` by a variable standing for its
/// principal root, defined by its square.
pub struct SquareRootVisitor {
    pub roots: PrincipalRootRegistry,
    pub error: Option<TypeError>,
    pub rewrites: usize,
}

impl Default for SquareRootVisitor {
    fn default() -> (visitor: Self)
        ensures
            visitor.roots.side_conditions@.len() == 0,
            visitor.rewrites == 0,
            visitor.error is None,
    {
        SquareRootVisitor { roots: PrincipalRootRegistry::new(), error: None, rewrites: 0 }
    }
}

impl SquareRootVisitor {
    /// The number of rewrites and the roots introduced, or the failure met.
    pub fn finish(self) -> (result: Result<(usize, Vec<SideCondition<TypedMetadata>>), TypeError>)
        ensures
            match result {
                Ok((n, conditions)) => self.error is None && n == self.rewrites && conditions@
                    == self.roots.side_conditions@,
                Err(e) => self.error == Some(e),
            },
    {
        match self.error {
            None => Ok((self.rewrites, self.roots.side_conditions)),
            Some(error) => Err(error),
        }
    }

    /// Hands over the roots introduced so far.
    pub fn side_conditions(&mut self) -> (conditions: Vec<SideCondition<TypedMetadata>>)
        ensures
            conditions@ == old(self).roots.side_conditions@,
            final(self).roots.side_conditions@.len() == 0,
            final(self).rewrites == old(self).rewrites,
            final(self).error == old(self).error,
    {
        let mut taken: Vec<SideCondition<TypedMetadata>> = Vec::new();
        std::mem::swap(&mut taken, &mut self.roots.side_conditions);
        taken
    }

    /// Replaces the node `b^{1/2}`, its operands already rewritten, by the
    /// variable standing for the principal root of `b`: of a real, one that
    /// exists unless `b` is negative; of a matrix, one assumed to exist. A
    /// base of no known type is left for later, one of another type fails.
    /// Nothing happens after a failure, or at a set comprehension.
    pub fn lower_node(&mut self, context: &VisitContext, node: &mut Expr<TypedMetadata>)
        requires
            old(self).rewrites < usize::MAX,
            square_root_base(*old(node)) matches Some(b) ==> (annotation(b) matches Some(t) ==> (t is Real
                || t is Matrix) ==> {
                &&& root_fits(old(node)@, t, context.active_ranges@)
                &&& roots_accept(
                    old(self).roots.side_conditions@,
                    old(node)@,
                    b@,
                    t,
                    if t is Real {
                        RootExistence::Checkable
                    } else {
                        RootExistence::Assumed
                    },
                    context.active_ranges@,
                )
            }),
        ensures
            old(self).error is Some || old(node).node().raw is SetComprehension ==> *final(node) == *old(node)
                && *final(self) == *old(self),
            old(self).error is None && !(old(node).node().raw is SetComprehension) ==> match square_root_base(
                *old(node),
            ) {
                None => *final(node) == *old(node) && *final(self) == *old(self),
                Some(b) => match annotation(b) {
                    None => *final(node) == *old(node) && *final(self) == *old(self),
                    Some(t) => if t is Real || t is Matrix {
                        &&& final(node)@ == indexed(root_name(old(node)@, context.active_ranges@), context.active_ranges@)
                        &&& final(self).error is None
                        &&& final(self).rewrites == old(self).rewrites + 1
                        &&& roots_recorded(
                            old(self).roots.side_conditions@,
                            final(self).roots.side_conditions@,
                            old(node)@,
                            b@,
                            t,
                            if t is Real {
                                RootExistence::Checkable
                            } else {
                                RootExistence::Assumed
                            },
                            context.active_ranges@,
                        )
                    } else {
                        &&& *final(node) == *old(node)
                        &&& final(self).error matches Some(TypeError::Invalid(m)) && m@ == root_message()
                        &&& final(self).rewrites == old(self).rewrites
                        &&& final(self).roots.side_conditions@ == old(self).roots.side_conditions@
                    },
                },
            },
    {
        if self.error.is_some() {
            return;
        }
        let base = match square_root_base_of(node) {
            Some(b) => b,
            None => return,
        };
        let ty = match base.meta().get_type() {
            Ok(t) => t,
            Err(_) => return,
        };
        let existence = match ty {
            TypeExpr::Real => RootExistence::Checkable,
            TypeExpr::Matrix(_, _) => RootExistence::Assumed,
            _ => {
                self.error = Some(TypeError::Invalid("square root requires a real scalar or square real matrix"));
                return;
            },
        };
        let introduced = self.roots.lower(context, node, base.share(), ty, existence);
        *node = introduced;
        self.rewrites = self.rewrites + 1;
    }
}

} // verus!
