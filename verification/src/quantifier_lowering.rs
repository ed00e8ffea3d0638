//! The lowering of quantifiers into the values that witness or refute them:
//! an existential read positively (a universal read negatively) becomes its
//! body about a new variable, recorded as a side condition.
use vstd::prelude::*;

use crate::context::{Existence, SideCondition, VisitContext};
use crate::expression_utils::{max_bound_index, size};
use crate::formula::{free_substituted, substitute_free_variable};
use crate::to_tex::{latex, renderable};
use crate::type_expr::{abstract_type_variable, abstracted_type};
use crate::type_resolver::{annotation, TypeError, TypedMetadata};
use crate::view::{type_view, views, ExprView, TypeView, VariableView};
use crate::{Binop, DeBruijnIndex, Expr, Finop, Logic, LogicChain, Monop, Range, RawExpr, SeqOp, TypeExpr, Variable};

verus! {

// ---------------------------------------------------------------------------
// Positions within ranges
// ---------------------------------------------------------------------------

/// `positive + (-negative) + 1`.
pub open spec fn difference_plus_one(positive: ExprView, negative: ExprView) -> ExprView {
    ExprView::Finop(
        Finop::Plus,
        seq![positive, ExprView::Monop(Monop::Neg, Box::new(negative)), ExprView::NatLiteral(1)],
    )
}

/// The number of values of a range: `to + (-from) + 1`.
pub open spec fn range_length(r: Range<()>) -> ExprView {
    difference_plus_one(r.to@, r.from@)
}

/// The one-based position of the range's index among its values:
/// `index + (-from) + 1`.
pub open spec fn range_position(r: Range<()>) -> ExprView {
    difference_plus_one(ExprView::Variable(r.index_variable.view_variable()), r.from@)
}

/// The value of the range's index at the bound position of a sequence:
/// `from + (position) + (-1)`.
pub open spec fn source_position(r: Range<()>) -> ExprView {
    ExprView::Finop(
        Finop::Plus,
        seq![
            r.from@,
            ExprView::BoundNatural(0),
            ExprView::Monop(Monop::Neg, Box::new(ExprView::NatLiteral(1))),
        ],
    )
}

/// The tree `positive + (-negative) + 1`.
fn plus_with_difference(positive: &Expr<()>, negative: &Expr<()>) -> (e: Expr<()>)
    ensures
        e@ == difference_plus_one(positive@, negative@),
{
    let negated: Expr<()> = Expr::new(RawExpr::Monop(Monop::Neg, negative.share()));
    let one: Expr<()> = Expr::new(RawExpr::NatLiteral(1));
    let operands = vec![positive.share(), negated, one];
    let e: Expr<()> = Expr::new(RawExpr::Finop(Finop::Plus, operands));
    proof {
        crate::view::lemma_views(operands@);
        assert(crate::view::views(operands@) =~= seq![positive@, ExprView::Monop(Monop::Neg, Box::new(negative@)), ExprView::NatLiteral(1)]);
    }
    e
}

/// The number of values of a range.
fn length_of(range: &Range<()>) -> (e: Expr<()>)
    ensures
        e@ == range_length(*range),
{
    plus_with_difference(&range.to, &range.from)
}

/// The one-based position of a range's index.
fn position_of(range: &Range<()>) -> (e: Expr<()>)
    ensures
        e@ == range_position(*range),
{
    let index: Expr<()> = Expr::new(RawExpr::Variable(range.index_variable.duplicate()));
    plus_with_difference(&index, &range.from)
}

/// The value of a range's index at the bound position of a sequence.
fn bound_source_position(range: &Range<()>) -> (e: Expr<()>)
    ensures
        e@ == source_position(*range),
{
    let bound: Expr<()> = Expr::new(RawExpr::BoundNatural(DeBruijnIndex::new(0)));
    let one: Expr<()> = Expr::new(RawExpr::NatLiteral(1));
    proof {
        assert(one@ == ExprView::NatLiteral(1));
    }
    let minus_one: Expr<()> = Expr::new(RawExpr::Monop(Monop::Neg, one));
    let operands = vec![range.from.share(), bound.share(), minus_one.share()];
    let e: Expr<()> = Expr::new(RawExpr::Finop(Finop::Plus, operands));
    proof {
        crate::view::lemma_views(operands@);
        assert(bound@ == ExprView::BoundNatural(0));
        assert(minus_one@ == ExprView::Monop(Monop::Neg, Box::new(ExprView::NatLiteral(1))));
        assert(crate::view::views(operands@) =~= seq![
            range.from@,
            ExprView::BoundNatural(0),
            ExprView::Monop(Monop::Neg, Box::new(ExprView::NatLiteral(1))),
        ]);
    }
    e
}

// ---------------------------------------------------------------------------
// Values under ranges
// ---------------------------------------------------------------------------

/// The tree `source` wrapped in a `map` over each range, the first range
/// outermost.
pub open spec fn in_maps(source: ExprView, ranges: Seq<Range<()>>) -> ExprView
    decreases ranges.len(),
{
    if ranges.len() == 0 {
        source
    } else {
        ExprView::Seqop(
            SeqOp::Mapped,
            ranges[0].index_variable.view_variable(),
            Box::new(ranges[0].from@),
            Box::new(ranges[0].to@),
            Box::new(in_maps(source, ranges.drop_first())),
        )
    }
}

/// The type of one value per position of the ranges: the type nested in a
/// sequence type per range, the first range outermost, with each range's
/// index replaced by the value at the bound position.
pub open spec fn lifted(t: TypeView, ranges: Seq<Range<()>>) -> TypeView
    decreases ranges.len(),
{
    if ranges.len() == 0 {
        t
    } else {
        TypeView::Sequence(
            Box::new(
                ExprView::Type(
                    abstracted_type(
                        lifted(t, ranges.drop_first()),
                        ranges[0].index_variable.view_variable(),
                        source_position(ranges[0]),
                        0,
                    ),
                ),
            ),
            Box::new(range_length(ranges[0])),
        )
    }
}

/// Whether the lifting of a type fits in memory sizes at each step.
pub open spec fn lift_fits(t: TypeView, ranges: Seq<Range<()>>) -> bool
    decreases ranges.len(),
{
    ranges.len() == 0 || {
        &&& lift_fits(t, ranges.drop_first())
        &&& size(ExprView::Type(lifted(t, ranges.drop_first()))) + size(source_position(ranges[0])) + max_bound_index(
            source_position(ranges[0]),
        ) <= usize::MAX
    }
}

/// The variable `v` subscripted by the position of each range's index, the
/// first range first.
pub open spec fn indexed(v: VariableView, ranges: Seq<Range<()>>) -> ExprView
    decreases ranges.len(),
{
    if ranges.len() == 0 {
        ExprView::Variable(v)
    } else {
        ExprView::Binop(
            Binop::SingleSubscript,
            Box::new(indexed(v, ranges.drop_last())),
            Box::new(range_position(ranges.last())),
        )
    }
}

/// `source` wrapped in a `map` over each range.
pub(crate) fn wrap_in_maps(source: &Expr<()>, ranges: &Vec<Range<()>>) -> (e: Expr<()>)
    ensures
        e@ == in_maps(source@, ranges@),
{
    let mut expression = source.share();
    let mut i: usize = ranges.len();
    while i > 0
        invariant
            i <= ranges@.len(),
            expression@ == in_maps(source@, ranges@.subrange(i as int, ranges@.len() as int)),
        decreases i,
    {
        i = i - 1;
        let range = &ranges[i];
        let copy = Range { index_variable: range.index_variable.duplicate(), from: range.from.share(), to: range.to.share() };
        proof {
            let rest = ranges@.subrange(i + 1, ranges@.len() as int);
            let here = ranges@.subrange(i as int, ranges@.len() as int);
            assert(here[0] == *range);
            assert(here.drop_first() =~= rest);
        }
        expression = Expr::new(RawExpr::Seqop(SeqOp::Mapped, copy, expression));
    }
    proof {
        assert(ranges@.subrange(0, ranges@.len() as int) =~= ranges@);
    }
    expression
}

/// The type of one value per position of the ranges.
pub(crate) fn lift_type(ty: TypeExpr<()>, ranges: &Vec<Range<()>>) -> (lifted_type: TypeExpr<()>)
    requires
        lift_fits(type_view(ty), ranges@),
    ensures
        type_view(lifted_type) == lifted(type_view(ty), ranges@),
{
    let ghost t = type_view(ty);
    let mut current = ty;
    let mut i: usize = ranges.len();
    proof {
        assert(ranges@.subrange(i as int, ranges@.len() as int) =~= Seq::<Range<()>>::empty());
        lemma_lift_fits_suffix(t, ranges@, 0);
    }
    while i > 0
        invariant
            i <= ranges@.len(),
            forall|j: int| 0 <= j <= ranges@.len() ==> lift_fits(t, #[trigger] ranges@.subrange(j, ranges@.len() as int)),
            type_view(current) == lifted(t, ranges@.subrange(i as int, ranges@.len() as int)),
        decreases i,
    {
        i = i - 1;
        let range = &ranges[i];
        let ghost rest = ranges@.subrange(i + 1, ranges@.len() as int);
        let ghost here = ranges@.subrange(i as int, ranges@.len() as int);
        proof {
            assert(here[0] == *range);
            assert(here.drop_first() =~= rest);
            assert(lift_fits(t, here));
        }
        let position = bound_source_position(range);
        let element = abstract_type_variable(&current, &range.index_variable, &position);
        let length = length_of(range);
        let wrapped: Expr<()> = Expr::new(RawExpr::Type(element));
        proof {
            assert(wrapped@ == ExprView::Type(type_view(element)));
        }
        current = TypeExpr::Sequence(wrapped, length);
        proof {
            assert(type_view(current) == TypeView::Sequence(Box::new(wrapped@), Box::new(length@)));
            assert(type_view(current) == lifted(t, here));
        }
    }
    proof {
        assert(ranges@.subrange(0, ranges@.len() as int) =~= ranges@);
    }
    current
}

proof fn lemma_lift_fits_suffix(t: TypeView, ranges: Seq<Range<()>>, j: int)
    requires
        lift_fits(t, ranges),
    ensures
        forall|k: int| 0 <= k <= ranges.len() ==> lift_fits(t, #[trigger] ranges.subrange(k, ranges.len() as int)),
    decreases ranges.len(),
{
    assert(ranges.subrange(0, ranges.len() as int) =~= ranges);
    if ranges.len() > 0 {
        lemma_lift_fits_suffix(t, ranges.drop_first(), 0);
        assert forall|k: int| 0 <= k <= ranges.len() implies lift_fits(t, #[trigger] ranges.subrange(k, ranges.len() as int)) by {
            if k > 0 {
                assert(ranges.subrange(k, ranges.len() as int) =~= ranges.drop_first().subrange(
                    k - 1,
                    ranges.drop_first().len() as int,
                ));
            }
        }
    }
}

/// The variable subscripted by the position of each range's index.
pub(crate) fn indexed_introduced_variable(variable: Variable, ranges: &Vec<Range<()>>) -> (e: Expr<()>)
    ensures
        e@ == indexed(variable.view_variable(), ranges@),
{
    let ghost v = variable.view_variable();
    let mut expression: Expr<()> = Expr::new(RawExpr::Variable(variable));
    let mut i: usize = 0;
    while i < ranges.len()
        invariant
            i <= ranges@.len(),
            expression@ == indexed(v, ranges@.take(i as int)),
        decreases ranges@.len() - i,
    {
        let position = position_of(&ranges[i]);
        proof {
            assert(ranges@.take(i + 1).drop_last() =~= ranges@.take(i as int));
        }
        expression = Expr::new(RawExpr::Binop(Binop::SingleSubscript, expression, position));
        i = i + 1;
    }
    proof {
        assert(ranges@.take(ranges@.len() as int) =~= ranges@);
    }
    expression
}


// ---------------------------------------------------------------------------
// The lowering of one quantifier
// ---------------------------------------------------------------------------

/// The binder a quantifier declares: a variable, or a variable declared in
/// a written type.
pub open spec fn declared_binder(d: ExprView) -> Option<(VariableView, Option<TypeView>)> {
    match d {
        ExprView::Variable(v) => Some((v, None)),
        ExprView::Binop(op, l, r) => if op == Binop::ElementOf {
            match (*l, *r) {
                (ExprView::Variable(v), ExprView::Type(t)) => Some((v, Some(t))),
                _ => None,
            }
        } else {
            None
        },
        _ => None,
    }
}

/// The role of the value a quantifier introduces.
pub open spec fn role(op: Finop) -> Seq<char> {
    if op == Finop::Exists { "witness"@ } else { "counterexample"@ }
}

/// The conjunction of trees, or the tree itself when there is one.
pub open spec fn conjoined(xs: Seq<ExprView>) -> ExprView {
    if xs.len() == 1 { xs[0] } else { ExprView::Finop(Finop::And, xs) }
}

/// The name of the value a quantifier introduces: its role, applied to its
/// type and to what it is about, wrapped in the maps of the ranges around.
pub open spec fn introduced_name(op: Finop, t: TypeView, about: ExprView) -> Seq<char> {
    "\\operatorname{"@ + role(op) + "}\\left("@ + latex(ExprView::Type(t), true) + "; "@ + latex(about, true)
        + "\\right)"@
}

/// A quantifier's body operands with the binder replaced by the introduced
/// value: their conjunction for an existential; for a universal, the last
/// operand, implied by the conjunction of the others when there are others.
pub open spec fn lowered_quantifier(op: Finop, bodies: Seq<ExprView>, binder: VariableView, introduced: ExprView) -> ExprView {
    let lowered = substituted_bodies(bodies, binder, introduced);
    if op == Finop::Exists {
        conjoined(lowered)
    } else if lowered.len() == 1 {
        lowered[0]
    } else {
        ExprView::LogicChain(Box::new(conjoined(lowered.drop_last())), seq![(Logic::Imp, lowered.last())])
    }
}

/// The bodies with the binder replaced by the introduced value.
pub open spec fn substituted_bodies(bodies: Seq<ExprView>, binder: VariableView, introduced: ExprView) -> Seq<ExprView> {
    bodies.map_values(|b: ExprView| free_substituted(b, binder, introduced))
}

/// What the lowering does to one node, its operands already lowered.
pub enum QuantifierStep {
    /// The node is left as it is.
    Unchanged,
    /// The lowering fails with this message.
    Failed(Seq<char>),
    /// The node becomes `replacement`, about the value named `name` of type
    /// `ty` displayed as `display`; `t` is the binder's type and `about`
    /// what the value is about, in the maps of the ranges around.
    Lowered { replacement: ExprView, name: VariableView, display: Seq<char>, ty: TypeView, t: TypeView, about: ExprView },
}

/// The step of the lowering at `node`: only an existential read positively
/// or a universal read negatively is lowered; it needs a binder declaration
/// and a body, a variable binder, and a type for the binder, written or
/// inferred (without one the node is left for later).
pub open spec fn quantifier_step(polarity: bool, ranges: Seq<Range<()>>, node: Expr<TypedMetadata>) -> QuantifierStep {
    match node.node().raw {
        RawExpr::Finop(op, xs) => if !(op == Finop::Exists || op == Finop::Forall) {
            QuantifierStep::Unchanged
        } else if !(if op == Finop::Exists { polarity } else { !polarity }) {
            QuantifierStep::Unchanged
        } else if xs@.len() < 2 {
            QuantifierStep::Failed("quantifier requires one binder declaration and a body"@)
        } else {
            match declared_binder(xs@[0]@) {
                None => QuantifierStep::Failed("quantifier requires a direct variable binder"@),
                Some((binder, explicit)) => {
                    let declared = match explicit {
                        Some(t) => Some(t),
                        None => annotation(xs@[0]),
                    };
                    match declared {
                        None => QuantifierStep::Unchanged,
                        Some(t) => {
                            let bodies = views(xs@.drop_first());
                            let about = in_maps(conjoined(bodies), ranges);
                            let name = VariableView {
                                name: introduced_name(op, t, about),
                                subscript: Seq::empty(),
                                annotations: Seq::empty(),
                            };
                            QuantifierStep::Lowered {
                                replacement: lowered_quantifier(op, bodies, binder, indexed(name, ranges)),
                                name,
                                display: latex(node@, false),
                                ty: lifted(t, ranges),
                                t,
                                about,
                            }
                        },
                    }
                },
            }
        },
        _ => QuantifierStep::Unchanged,
    }
}

/// A quantifier with a binder declaration, at least one body, and a binder
/// type written or inferred.
pub open spec fn typed_quantifier(node: Expr<TypedMetadata>) -> bool {
    match node.node().raw {
        RawExpr::Finop(op, xs) => {
            &&& op == Finop::Exists || op == Finop::Forall
            &&& xs@.len() >= 2
            &&& match declared_binder(xs@[0]@) {
                Some((_, explicit)) => explicit is Some || annotation(xs@[0]) is Some,
                None => false,
            }
        },
        _ => false,
    }
}

/// Quantifiers lower by polarity: a quantifier with a binder declaration, at
/// least one body and a known binder type is lowered exactly when it is an
/// existential read positively or a universal read negatively. It then
/// becomes its bodies with the binder replaced by one introduced value,
/// conjoined for an existential, and for a universal the last body implied by
/// the conjunction of the others (the body itself when alone), the value
/// being recorded with the lifted binder type; otherwise it stays as it is.
pub proof fn law_quantifiers_lower_by_polarity(polarity: bool, ranges: Seq<Range<()>>, node: Expr<TypedMetadata>)
    requires
        typed_quantifier(node),
    ensures
        match node.node().raw {
            RawExpr::Finop(op, xs) => {
                let (binder, explicit) = declared_binder(xs@[0]@)->0;
                let t = match explicit {
                    Some(t) => t,
                    None => annotation(xs@[0])->0,
                };
                let bodies = views(xs@.drop_first());
                if (op == Finop::Exists && polarity) || (op == Finop::Forall && !polarity) {
                    quantifier_step(polarity, ranges, node) matches QuantifierStep::Lowered { replacement, name, ty, .. }
                        && replacement == lowered_quantifier(op, bodies, binder, indexed(name, ranges)) && ty == lifted(
                        t,
                        ranges,
                    )
                } else {
                    quantifier_step(polarity, ranges, node) is Unchanged
                }
            },
            _ => false,
        },
{
}

/// Malformed quantifiers fail: an existential read positively or a
/// universal read negatively without a binder declaration and a body fails
/// with one message, and one whose declaration binds no direct variable
/// with another.
pub proof fn law_malformed_quantifiers_fail(polarity: bool, ranges: Seq<Range<()>>, node: Expr<TypedMetadata>)
    requires
        match node.node().raw {
            RawExpr::Finop(op, _) => (op == Finop::Exists && polarity) || (op == Finop::Forall && !polarity),
            _ => false,
        },
    ensures
        match node.node().raw {
            RawExpr::Finop(_, xs) => if xs@.len() < 2 {
                quantifier_step(polarity, ranges, node) == QuantifierStep::Failed(
                    "quantifier requires one binder declaration and a body"@,
                )
            } else if declared_binder(xs@[0]@) is None {
                quantifier_step(polarity, ranges, node) == QuantifierStep::Failed(
                    "quantifier requires a direct variable binder"@,
                )
            } else {
                !(quantifier_step(polarity, ranges, node) is Failed)
            },
            _ => false,
        },
{
}

/// The texts of a lowered step can be rendered and its type lifted.
pub open spec fn step_fits(polarity: bool, ranges: Seq<Range<()>>, node: Expr<TypedMetadata>) -> bool {
    match quantifier_step(polarity, ranges, node) {
        QuantifierStep::Lowered { t, about, .. } => {
            &&& renderable(ExprView::Type(t), true)
            &&& renderable(about, true)
            &&& renderable(node@, false)
            &&& lift_fits(t, ranges)
        },
        _ => true,
    }
}

/// Two lists of ranges with the same models.
pub open spec fn same_ranges(a: Seq<Range<()>>, b: Seq<Range<()>>) -> bool {
    &&& a.len() == b.len()
    &&& forall|i: int|
        0 <= i < a.len() ==> {
            &&& (#[trigger] a[i]).index_variable.view_variable() == b[i].index_variable.view_variable()
            &&& a[i].from@ == b[i].from@
            &&& a[i].to@ == b[i].to@
        }
}

/// `c` records the value named `name` of type `ty`, displayed as `display`,
/// introduced under `ranges`, always existing and defined by nothing else.
pub open spec fn records(c: SideCondition<TypedMetadata>, name: VariableView, display: Seq<char>, ty: TypeView, ranges: Seq<Range<()>>) -> bool {
    &&& c.introduced_variable.view_variable() == name
    &&& c.display_name@ == display
    &&& type_view(c.introduced_type) == ty
    &&& same_ranges(c.active_ranges@, ranges)
    &&& c.defining_assertions@.len() == 0
    &&& c.existence is Guaranteed
}

/// A value of the same name is recorded only with the same type, ranges
/// and display.
pub open spec fn registry_accepts(conditions: Seq<SideCondition<TypedMetadata>>, step: QuantifierStep, ranges: Seq<Range<()>>) -> bool {
    match step {
        QuantifierStep::Lowered { name, display, ty, .. } => forall|i: int|
            0 <= i < conditions.len() && (#[trigger] conditions[i]).introduced_variable.view_variable() == name
                ==> records(conditions[i], name, display, ty, ranges),
        _ => true,
    }
}

/// Whether a value of this name is already recorded.
pub open spec fn recorded(conditions: Seq<SideCondition<TypedMetadata>>, name: VariableView) -> bool {
    exists|i: int| 0 <= i < conditions.len() && (#[trigger] conditions[i]).introduced_variable.view_variable() == name
}

/// Lowers existential quantifiers read positively and universal quantifiers
/// read negatively into the values that witness or refute them.
pub struct QuantifierLowering {
    pub rewrites: usize,
    pub error: Option<TypeError>,
    pub side_conditions: Vec<SideCondition<TypedMetadata>>,
}

impl QuantifierLowering {
    /// A lowering that has rewritten nothing.
    pub fn new() -> (lowering: Self)
        ensures
            lowering.rewrites == 0,
            lowering.error is None,
            lowering.side_conditions@.len() == 0,
    {
        QuantifierLowering { rewrites: 0, error: None, side_conditions: Vec::new() }
    }

    /// The number of rewrites and the values introduced, or the failure met.
    pub fn finish(self) -> (result: Result<(usize, Vec<SideCondition<TypedMetadata>>), TypeError>)
        ensures
            match result {
                Ok((n, conditions)) => self.error is None && n == self.rewrites && conditions@ == self.side_conditions@,
                Err(e) => self.error == Some(e),
            },
    {
        match self.error {
            None => Ok((self.rewrites, self.side_conditions)),
            Some(error) => Err(error),
        }
    }

    /// Hands over the values introduced so far.
    pub fn side_conditions(&mut self) -> (conditions: Vec<SideCondition<TypedMetadata>>)
        ensures
            conditions@ == old(self).side_conditions@,
            final(self).side_conditions@.len() == 0,
            final(self).rewrites == old(self).rewrites,
            final(self).error == old(self).error,
    {
        let mut taken: Vec<SideCondition<TypedMetadata>> = Vec::new();
        std::mem::swap(&mut taken, &mut self.side_conditions);
        taken
    }

    /// Lowers the quantifier at `node`, its operands already lowered, as
    /// `quantifier_step` describes; a value of a name not yet recorded is
    /// recorded as a side condition. Nothing happens after a failure, or at
    /// a set comprehension.
    pub fn lower_node(&mut self, context: &VisitContext, node: &mut Expr<TypedMetadata>)
        requires
            old(self).rewrites < usize::MAX,
            step_fits(context.logical_polarity, context.active_ranges@, *old(node)),
            registry_accepts(
                old(self).side_conditions@,
                quantifier_step(context.logical_polarity, context.active_ranges@, *old(node)),
                context.active_ranges@,
            ),
        ensures
            old(self).error is Some || old(node).node().raw is SetComprehension ==> *final(node) == *old(node) && *final(self)
                == *old(self),
            old(self).error is None && !(old(node).node().raw is SetComprehension) ==> match quantifier_step(
                context.logical_polarity,
                context.active_ranges@,
                *old(node),
            ) {
                QuantifierStep::Unchanged => *final(node) == *old(node) && *final(self) == *old(self),
                QuantifierStep::Failed(message) => {
                    &&& *final(node) == *old(node)
                    &&& final(self).error matches Some(TypeError::Invalid(m)) && m@ == message
                    &&& final(self).rewrites == old(self).rewrites
                    &&& final(self).side_conditions@ == old(self).side_conditions@
                },
                QuantifierStep::Lowered { replacement, name, display, ty, .. } => {
                    &&& final(node)@ == replacement
                    &&& final(self).error is None
                    &&& final(self).rewrites == old(self).rewrites + 1
                    &&& if recorded(old(self).side_conditions@, name) {
                        final(self).side_conditions@ == old(self).side_conditions@
                    } else {
                        &&& final(self).side_conditions@.len() == old(self).side_conditions@.len() + 1
                        &&& final(self).side_conditions@.drop_last() == old(self).side_conditions@
                        &&& records(final(self).side_conditions@.last(), name, display, ty, context.active_ranges@)
                    }
                },
            },
    {
        if self.error.is_some() {
            return;
        }
        if let RawExpr::SetComprehension { .. } = node.raw() {
            return;
        }
        let ghost polarity = context.logical_polarity;
        let ghost ranges = context.active_ranges@;
        let (op, expressions) = match node.raw() {
            RawExpr::Finop(op, expressions) => (*op, expressions),
            _ => return,
        };
        let supported = match op {
            Finop::Exists => context.logical_polarity,
            Finop::Forall => !context.logical_polarity,
            _ => return,
        };
        if !supported {
            return;
        }
        if expressions.len() < 2 {
            self.error = Some(TypeError::Invalid("quantifier requires one binder declaration and a body"));
            return;
        }
        let declaration = &expressions[0];
        let (binder, explicit) = match binder_declaration(declaration) {
            Some(found) => found,
            None => {
                self.error = Some(TypeError::Invalid("quantifier requires a direct variable binder"));
                return;
            },
        };
        let binder_type: TypeExpr<()> = match explicit {
            Some(t) => t,
            None => match &declaration.meta().0 {
                Some(t) => t.duplicate(),
                None => return,
            },
        };
        let ghost t = type_view(binder_type);
        let ghost bodies = views(expressions@.drop_first());
        // What the value is about.
        let mut remaining: Vec<Expr<()>> = Vec::new();
        let mut i: usize = 1;
        while i < expressions.len()
            invariant
                1 <= i <= expressions@.len(),
                remaining@.len() == i - 1,
                forall|k: int| 0 <= k < i - 1 ==> (#[trigger] remaining@[k])@ == expressions@[k + 1]@,
            decreases expressions@.len() - i,
        {
            remaining.push(expressions[i].with_default_metadata());
            i = i + 1;
        }
        proof {
            crate::view::lemma_views(remaining@);
            crate::view::lemma_views(expressions@.drop_first());
            assert(views(remaining@) =~= bodies);
        }
        let about_source = conjunction(&remaining);
        let about = wrap_in_maps(&about_source, &context.active_ranges);
        let type_expression: Expr<()> = Expr::new(RawExpr::Type(binder_type.duplicate()));
        proof {
            assert(type_expression@ == ExprView::Type(t));
        }
        let role_text = match op {
            Finop::Exists => "witness",
            _ => "counterexample",
        };
        proof {
            reveal_strlit("witness");
            reveal_strlit("counterexample");
            reveal_strlit("\\operatorname{");
            reveal_strlit("}\\left(");
            reveal_strlit("; ");
            reveal_strlit("\\right)");
        }
        let mut name = String::new();
        name.append("\\operatorname{");
        name.append(role_text);
        name.append("}\\left(");
        let type_text = type_expression.as_latex_verbose().to_string();
        name.append(type_text.as_str());
        name.append("; ");
        let about_text = about.as_latex_verbose().to_string();
        name.append(about_text.as_str());
        name.append("\\right)");
        let introduced_variable = Variable::new(name.as_str());
        let ghost name_view = introduced_variable.view_variable();
        proof {
            assert(name@ =~= introduced_name(op, t, about@));
        }
        let introduced_type = lift_type(binder_type, &context.active_ranges);
        let introduced = indexed_introduced_variable(introduced_variable.duplicate(), &context.active_ranges);
        // The bodies about the introduced value.
        let mut lowered: Vec<Expr<()>> = Vec::new();
        let mut j: usize = 0;
        while j < remaining.len()
            invariant
                j <= remaining@.len(),
                lowered@.len() == j,
                forall|k: int| 0 <= k < j ==> (#[trigger] lowered@[k])@ == free_substituted(
                    remaining@[k]@,
                    binder.view_variable(),
                    introduced@,
                ),
            decreases remaining@.len() - j,
        {
            lowered.push(substitute_free_variable(&remaining[j], &binder, &introduced));
            j = j + 1;
        }
        let ghost lowered_views = substituted_bodies(bodies, binder.view_variable(), introduced@);
        proof {
            crate::view::lemma_views(lowered@);
            assert(views(lowered@) =~= lowered_views);
        }
        let replacement: Expr<()> = match op {
            Finop::Exists => conjunction(&lowered),
            _ => {
                let ghost before = lowered@;
                let body = lowered.pop().unwrap();
                proof {
                    crate::view::lemma_views(before);
                    assert(body@ == lowered_views.last());
                }
                if lowered.len() == 0 {
                    body
                } else {
                    proof {
                        crate::view::lemma_views(lowered@);
                        assert(views(lowered@) =~= lowered_views.drop_last());
                    }
                    let premises = conjunction(&lowered);
                    let ghost body_view = body@;
                    let assertions = vec![(Logic::Imp, body)];
                    proof {
                        crate::view::lemma_logic_views(assertions@);
                        assert(crate::view::logic_views(assertions@) =~= seq![(Logic::Imp, body_view)]);
                    }
                    Expr::new(RawExpr::LogicChain(LogicChain { start: premises, assertions }))
                }
            },
        };
        let display_name = node.as_latex().to_string();
        let active_ranges = copy_ranges(&context.active_ranges);
        let condition = SideCondition {
            introduced_variable: introduced_variable.duplicate(),
            display_name,
            introduced_type,
            active_ranges,
            defining_assertions: Vec::new(),
            existence: Existence::Guaranteed,
        };
        let mut found = false;
        let mut k: usize = 0;
        while k < self.side_conditions.len()
            invariant
                k <= self.side_conditions@.len(),
                name_view == introduced_variable.view_variable(),
                found == exists|m: int|
                    0 <= m < k && (#[trigger] self.side_conditions@[m]).introduced_variable.view_variable() == name_view,
            decreases self.side_conditions@.len() - k,
        {
            if self.side_conditions[k].introduced_variable.same(&introduced_variable) {
                found = true;
            }
            k = k + 1;
        }
        proof {
            assert(condition.introduced_variable.view_variable() == name_view);
            assert(condition.display_name@ == latex(old(node)@, false));
            assert(type_view(condition.introduced_type) == lifted(t, ranges));
            assert(replacement@ == lowered_quantifier(op, bodies, binder.view_variable(), indexed(name_view, ranges)));
        }
        if !found {
            self.side_conditions.push(condition);
        }
        *node = replacement.with_default_metadata();
        self.rewrites = self.rewrites + 1;
    }
}

/// The binder a quantifier declares, and its written type.
fn binder_declaration<Metadata>(expression: &Expr<Metadata>) -> (found: Option<(Variable, Option<TypeExpr<()>>)>)
    ensures
        match found {
            Some((v, t)) => declared_binder(expression@) == Some((
                v.view_variable(),
                match t {
                    Some(ty) => Some(type_view(ty)),
                    None => None::<TypeView>,
                },
            )),
            None => declared_binder(expression@) is None,
        },
{
    match expression.raw() {
        RawExpr::Variable(variable) => Some((variable.duplicate(), None)),
        RawExpr::Binop(Binop::ElementOf, left, right) => match (left.raw(), right.raw()) {
            (RawExpr::Variable(variable), RawExpr::Type(ty)) => {
                proof {
                    assert(left@ == ExprView::Variable(variable.view_variable()));
                    assert(right@ == ExprView::Type(type_view(*ty)));
                }
                Some((variable.duplicate(), Some(ty.with_default_metadata())))
            },
            _ => {
                proof {
                    assert(!(left@ is Variable) || !(right@ is Type));
                }
                None
            },
        },
        _ => None,
    }
}

/// The conjunction of the trees, or the tree itself when there is one.
fn conjunction(expressions: &Vec<Expr<()>>) -> (e: Expr<()>)
    ensures
        e@ == conjoined(views(expressions@)),
{
    proof {
        crate::view::lemma_views(expressions@);
    }
    if expressions.len() == 1 {
        expressions[0].share()
    } else {
        let mut operands: Vec<Expr<()>> = Vec::new();
        let mut i: usize = 0;
        while i < expressions.len()
            invariant
                i <= expressions@.len(),
                operands@ == expressions@.take(i as int),
            decreases expressions@.len() - i,
        {
            operands.push(expressions[i].share());
            i = i + 1;
            proof {
                assert(operands@ =~= expressions@.take(i as int));
            }
        }
        proof {
            assert(expressions@.take(expressions@.len() as int) =~= expressions@);
        }
        Expr::new(RawExpr::Finop(Finop::And, operands))
    }
}

/// A copy of the ranges with the same models.
pub(crate) fn copy_ranges(ranges: &Vec<Range<()>>) -> (copy: Vec<Range<()>>)
    ensures
        same_ranges(copy@, ranges@),
{
    let mut copy: Vec<Range<()>> = Vec::new();
    let mut i: usize = 0;
    while i < ranges.len()
        invariant
            i <= ranges@.len(),
            copy@.len() == i,
            forall|k: int|
                0 <= k < i ==> {
                    &&& (#[trigger] copy@[k]).index_variable.view_variable() == ranges@[k].index_variable.view_variable()
                    &&& copy@[k].from@ == ranges@[k].from@
                    &&& copy@[k].to@ == ranges@[k].to@
                },
        decreases ranges@.len() - i,
    {
        let range = &ranges[i];
        copy.push(Range { index_variable: range.index_variable.duplicate(), from: range.from.share(), to: range.to.share() });
        i = i + 1;
    }
    copy
}

} // verus!
