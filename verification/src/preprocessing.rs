//! Prepared expressions: a typed expression with the values its rewrites
//! introduced, and their composition under givens.
use vstd::prelude::*;

use crate::context::{Existence, SideCondition, VisitContext};
use crate::quantifier_lowering::same_ranges;
use crate::to_tex::latex;
use crate::type_resolver::{annotation, TypedMetadata};
use crate::view::{type_view, TypeView, VariableView};
use crate::{Expr, Finop, Logic, LogicChain, RawExpr, Range, TypeExpr};

verus! {

/// A typed expression, the values introduced while preparing it, and the
/// position it was prepared for.
pub struct PreparedExpression {
    pub expression: Expr<TypedMetadata>,
    pub side_conditions: Vec<SideCondition<TypedMetadata>>,
    pub context: VisitContext,
}

/// The name a side condition introduces.
pub open spec fn name_of(c: SideCondition<TypedMetadata>) -> VariableView {
    c.introduced_variable.view_variable()
}

/// Two side conditions with the same models.
pub open spec fn same_condition(a: SideCondition<TypedMetadata>, b: SideCondition<TypedMetadata>) -> bool {
    &&& name_of(a) == name_of(b)
    &&& a.display_name@ == b.display_name@
    &&& type_view(a.introduced_type) == type_view(b.introduced_type)
    &&& same_ranges(a.active_ranges@, b.active_ranges@)
    &&& a.defining_assertions@ == b.defining_assertions@
    &&& match (a.existence, b.existence) {
        (Existence::Guaranteed, Existence::Guaranteed) | (Existence::Assumed, Existence::Assumed) => true,
        (Existence::Checkable(x), Existence::Checkable(y)) => x@ == y@,
        _ => false,
    }
}

/// Two lists of side conditions with the same models.
pub open spec fn same_conditions(a: Seq<SideCondition<TypedMetadata>>, b: Seq<SideCondition<TypedMetadata>>) -> bool {
    &&& a.len() == b.len()
    &&& forall|i: int| 0 <= i < a.len() ==> same_condition(#[trigger] a[i], b[i])
}

/// The ordinary renderings of a list of trees.
pub open spec fn rendered(s: Seq<Expr<TypedMetadata>>) -> Seq<Seq<char>> {
    s.map_values(|e: Expr<TypedMetadata>| latex(e@, false))
}

/// Two side conditions of one name may meet: they agree in type, ranges,
/// display, rendered definitions and existence.
pub open spec fn compatible(p: SideCondition<TypedMetadata>, c: SideCondition<TypedMetadata>) -> bool {
    &&& type_view(p.introduced_type) == type_view(c.introduced_type)
    &&& same_ranges(p.active_ranges@, c.active_ranges@)
    &&& p.display_name@ == c.display_name@
    &&& rendered(p.defining_assertions@) == rendered(c.defining_assertions@)
    &&& match (p.existence, c.existence) {
        (Existence::Guaranteed, Existence::Guaranteed) | (Existence::Assumed, Existence::Assumed) => true,
        (Existence::Checkable(x), Existence::Checkable(y)) => rendered(x@) == rendered(y@),
        _ => false,
    }
}

/// The index of the first condition introducing `v`, or `-1`.
pub open spec fn first_named(conditions: Seq<SideCondition<TypedMetadata>>, v: VariableView) -> int
    decreases conditions.len(),
{
    if conditions.len() == 0 {
        -1
    } else {
        let earlier = first_named(conditions.drop_last(), v);
        if earlier >= 0 {
            earlier
        } else if name_of(conditions.last()) == v {
            conditions.len() - 1
        } else {
            -1
        }
    }
}

/// `existing` with each condition of `new` whose name it does not yet hold
/// appended, in order.
pub open spec fn merged(existing: Seq<SideCondition<TypedMetadata>>, new: Seq<SideCondition<TypedMetadata>>) -> Seq<
    SideCondition<TypedMetadata>,
>
    decreases new.len(),
{
    if new.len() == 0 {
        existing
    } else {
        let earlier = merged(existing, new.drop_last());
        if first_named(earlier, name_of(new.last())) >= 0 {
            earlier
        } else {
            earlier.push(new.last())
        }
    }
}

/// Each condition of `new` whose name is already held meets the first
/// condition holding it.
pub open spec fn merge_accepts(existing: Seq<SideCondition<TypedMetadata>>, new: Seq<SideCondition<TypedMetadata>>) -> bool
    decreases new.len(),
{
    new.len() == 0 || {
        let earlier = merged(existing, new.drop_last());
        let found = first_named(earlier, name_of(new.last()));
        &&& merge_accepts(existing, new.drop_last())
        &&& found >= 0 ==> compatible(earlier[found], new.last())
    }
}

/// The conditions of the prepared givens merged, one given after another.
pub open spec fn merged_givens(existing: Seq<SideCondition<TypedMetadata>>, givens: Seq<PreparedExpression>) -> Seq<
    SideCondition<TypedMetadata>,
>
    decreases givens.len(),
{
    if givens.len() == 0 {
        existing
    } else {
        merged(merged_givens(existing, givens.drop_last()), givens.last().side_conditions@)
    }
}

/// Each given's conditions may be merged after those before it.
pub open spec fn givens_accepted(existing: Seq<SideCondition<TypedMetadata>>, givens: Seq<PreparedExpression>) -> bool
    decreases givens.len(),
{
    givens.len() == 0 || {
        &&& givens_accepted(existing, givens.drop_last())
        &&& merge_accepts(merged_givens(existing, givens.drop_last()), givens.last().side_conditions@)
    }
}

proof fn lemma_same_first_named(a: Seq<SideCondition<TypedMetadata>>, b: Seq<SideCondition<TypedMetadata>>, v: VariableView)
    requires
        same_conditions(a, b),
    ensures
        first_named(a, v) == first_named(b, v),
    decreases a.len(),
{
    if a.len() > 0 {
        assert(same_condition(a[a.len() - 1], b[b.len() - 1]));
        lemma_same_first_named(a.drop_last(), b.drop_last(), v);
    }
}

proof fn lemma_same_compatible(p: SideCondition<TypedMetadata>, q: SideCondition<TypedMetadata>, c: SideCondition<TypedMetadata>)
    requires
        same_condition(p, q),
    ensures
        compatible(p, c) == compatible(q, c),
{
    assert(same_ranges(p.active_ranges@, c.active_ranges@) == same_ranges(q.active_ranges@, c.active_ranges@)) by {
        if same_ranges(p.active_ranges@, c.active_ranges@) {
            assert forall|i: int| 0 <= i < q.active_ranges@.len() implies {
                &&& (#[trigger] q.active_ranges@[i]).index_variable.view_variable() == c.active_ranges@[i].index_variable.view_variable()
                &&& q.active_ranges@[i].from@ == c.active_ranges@[i].from@
                &&& q.active_ranges@[i].to@ == c.active_ranges@[i].to@
            } by {
                assert(same_ranges(p.active_ranges@, q.active_ranges@));
                let r = p.active_ranges@[i];
            }
        }
        if same_ranges(q.active_ranges@, c.active_ranges@) {
            assert forall|i: int| 0 <= i < p.active_ranges@.len() implies {
                &&& (#[trigger] p.active_ranges@[i]).index_variable.view_variable() == c.active_ranges@[i].index_variable.view_variable()
                &&& p.active_ranges@[i].from@ == c.active_ranges@[i].from@
                &&& p.active_ranges@[i].to@ == c.active_ranges@[i].to@
            } by {
                let r = q.active_ranges@[i];
            }
        }
    }
}

proof fn lemma_merged_congruent(a: Seq<SideCondition<TypedMetadata>>, b: Seq<SideCondition<TypedMetadata>>, new: Seq<SideCondition<TypedMetadata>>)
    requires
        same_conditions(a, b),
    ensures
        same_conditions(merged(a, new), merged(b, new)),
        merge_accepts(a, new) == merge_accepts(b, new),
    decreases new.len(),
{
    if new.len() > 0 {
        lemma_merged_congruent(a, b, new.drop_last());
        let ea = merged(a, new.drop_last());
        let eb = merged(b, new.drop_last());
        let v = name_of(new.last());
        lemma_same_first_named(ea, eb, v);
        let f = first_named(ea, v);
        if f >= 0 {
            lemma_first_named_bounds(ea, v);
            assert(same_condition(ea[f], eb[f]));
            lemma_same_compatible(ea[f], eb[f], new.last());
        } else {
            let ma = ea.push(new.last());
            let mb = eb.push(new.last());
            assert forall|i: int| 0 <= i < ma.len() implies same_condition(#[trigger] ma[i], mb[i]) by {
                if i < ea.len() {
                    assert(ma[i] == ea[i] && mb[i] == eb[i]);
                } else {
                    lemma_same_condition_reflexive(new.last());
                }
            }
        }
    }
}

proof fn lemma_first_named_bounds(conditions: Seq<SideCondition<TypedMetadata>>, v: VariableView)
    ensures
        -1 <= first_named(conditions, v) < conditions.len(),
        first_named(conditions, v) >= 0 ==> name_of(conditions[first_named(conditions, v)]) == v,
        first_named(conditions, v) < 0 ==> forall|i: int| 0 <= i < conditions.len() ==> name_of(#[trigger] conditions[i]) != v,
    decreases conditions.len(),
{
    if conditions.len() > 0 {
        lemma_first_named_bounds(conditions.drop_last(), v);
        let f = first_named(conditions.drop_last(), v);
        if f >= 0 {
            assert(conditions[f] == conditions.drop_last()[f]);
        } else {
            assert forall|i: int| 0 <= i < conditions.len() - 1 implies name_of(#[trigger] conditions[i]) != v by {
                assert(conditions[i] == conditions.drop_last()[i]);
            }
        }
    }
}

proof fn lemma_same_condition_reflexive(c: SideCondition<TypedMetadata>)
    ensures
        same_condition(c, c),
{
}

/// A copy of a side condition with the same models.
fn copy_condition(c: &SideCondition<TypedMetadata>) -> (copy: SideCondition<TypedMetadata>)
    ensures
        same_condition(copy, *c),
{
    let mut defining: Vec<Expr<TypedMetadata>> = Vec::new();
    let mut i: usize = 0;
    while i < c.defining_assertions.len()
        invariant
            i <= c.defining_assertions@.len(),
            defining@ == c.defining_assertions@.take(i as int),
        decreases c.defining_assertions@.len() - i,
    {
        defining.push(c.defining_assertions[i].share());
        i = i + 1;
        proof {
            assert(defining@ =~= c.defining_assertions@.take(i as int));
        }
    }
    proof {
        assert(c.defining_assertions@.take(c.defining_assertions@.len() as int) =~= c.defining_assertions@);
    }
    let existence = match &c.existence {
        Existence::Guaranteed => Existence::Guaranteed,
        Existence::Assumed => Existence::Assumed,
        Existence::Checkable(assertions) => {
            let mut checks: Vec<Expr<TypedMetadata>> = Vec::new();
            let mut j: usize = 0;
            while j < assertions.len()
                invariant
                    j <= assertions@.len(),
                    checks@ == assertions@.take(j as int),
                decreases assertions@.len() - j,
            {
                checks.push(assertions[j].share());
                j = j + 1;
                proof {
                    assert(checks@ =~= assertions@.take(j as int));
                }
            }
            proof {
                assert(assertions@.take(assertions@.len() as int) =~= assertions@);
            }
            Existence::Checkable(checks)
        },
    };
    SideCondition {
        introduced_variable: c.introduced_variable.duplicate(),
        display_name: c.display_name.clone(),
        introduced_type: c.introduced_type.duplicate(),
        active_ranges: crate::quantifier_lowering::copy_ranges(&c.active_ranges),
        defining_assertions: defining,
        existence,
    }
}

/// Appends each condition of `new` whose name `existing` does not yet hold.
fn merge_side_conditions(existing: &mut Vec<SideCondition<TypedMetadata>>, new: &Vec<SideCondition<TypedMetadata>>)
    requires
        merge_accepts(old(existing)@, new@),
    ensures
        same_conditions(final(existing)@, merged(old(existing)@, new@)),
{
    let ghost start = existing@;
    let mut i: usize = 0;
    proof {
        assert(new@.take(0) =~= Seq::<SideCondition<TypedMetadata>>::empty());
        assert forall|k: int| 0 <= k < existing@.len() implies same_condition(#[trigger] existing@[k], start[k]) by {
            lemma_same_condition_reflexive(existing@[k]);
        }
    }
    while i < new.len()
        invariant
            i <= new@.len(),
            merge_accepts(start, new@),
            same_conditions(existing@, merged(start, new@.take(i as int))),
        decreases new@.len() - i,
    {
        let ghost before = existing@;
        let ghost earlier = merged(start, new@.take(i as int));
        proof {
            assert(new@.take(i + 1).drop_last() =~= new@.take(i as int));
            assert(new@.take(i + 1).last() == new@[i as int]);
            lemma_same_first_named(before, earlier, name_of(new@[i as int]));
            lemma_first_named_bounds(before, name_of(new@[i as int]));
        }
        let mut found = false;
        let mut k: usize = 0;
        while k < existing.len()
            invariant
                existing@ == before,
                i < new@.len(),
                k <= before.len(),
                found == exists|m: int| 0 <= m < k && name_of(#[trigger] before[m]) == name_of(new@[i as int]),
            decreases before.len() - k,
        {
            if existing[k].introduced_variable.same(&new[i].introduced_variable) {
                found = true;
            }
            k = k + 1;
        }
        if !found {
            let copy = copy_condition(&new[i]);
            existing.push(copy);
            proof {
                let target = merged(start, new@.take(i + 1));
                assert(target == earlier.push(new@[i as int]));
                assert forall|m: int| 0 <= m < existing@.len() implies same_condition(#[trigger] existing@[m], target[m]) by {
                    if m < before.len() {
                        assert(existing@[m] == before[m]);
                    }
                }
            }
        } else {
            proof {
                assert(merged(start, new@.take(i + 1)) == earlier);
            }
        }
        i = i + 1;
    }
    proof {
        assert(new@.take(new@.len() as int) =~= new@);
    }
}

/// `e` is the Boolean implication `antecedent \implies conclusion`.
pub open spec fn implication_of(e: Expr<TypedMetadata>, antecedent: spec_fn(Expr<TypedMetadata>) -> bool, conclusion: Expr<TypedMetadata>) -> bool {
    &&& annotation(e) == Some(TypeView::Bool)
    &&& e.node().raw matches RawExpr::LogicChain(c)
    &&& antecedent(c.start)
    &&& c.assertions@ == seq![(Logic::Imp, conclusion)]
}

/// `a` is the antecedent of the givens: the one given's expression, or the
/// Boolean conjunction of the givens' expressions.
pub open spec fn antecedent_of(givens: Seq<PreparedExpression>, a: Expr<TypedMetadata>) -> bool {
    if givens.len() == 1 {
        a == givens[0].expression
    } else {
        &&& annotation(a) == Some(TypeView::Bool)
        &&& a.node().raw matches RawExpr::Finop(f, xs)
        &&& f == Finop::And
        &&& xs@ == givens.map_values(|g: PreparedExpression| g.expression)
    }
}

impl PreparedExpression {
    /// The implication from the givens to this expression, keeping every
    /// annotation and every value the givens introduced: the givens'
    /// conditions are merged into this expression's, one given after
    /// another.
    pub fn under_givens(self, givens: &Vec<PreparedExpression>) -> (result: PreparedExpression)
        requires
            givens_accepted(self.side_conditions@, givens@),
        ensures
            givens@.len() == 0 ==> result == self,
            givens@.len() > 0 ==> {
                &&& implication_of(result.expression, |a: Expr<TypedMetadata>| antecedent_of(givens@, a), self.expression)
                &&& same_conditions(result.side_conditions@, merged_givens(self.side_conditions@, givens@))
                &&& result.context == self.context
            },
    {
        if givens.len() == 0 {
            return self;
        }
        let PreparedExpression { expression, mut side_conditions, context } = self;
        let antecedent = if givens.len() == 1 {
            givens[0].expression.share()
        } else {
            let mut operands: Vec<Expr<TypedMetadata>> = Vec::new();
            let mut i: usize = 0;
            while i < givens.len()
                invariant
                    i <= givens@.len(),
                    operands@.len() == i,
                    forall|k: int| 0 <= k < i ==> #[trigger] operands@[k] == givens@[k].expression,
                decreases givens@.len() - i,
            {
                operands.push(givens[i].expression.share());
                i = i + 1;
            }
            proof {
                assert(operands@ =~= givens@.map_values(|g: PreparedExpression| g.expression));
            }
            Expr::with_metadata(TypedMetadata::resolved(TypeExpr::Bool), RawExpr::Finop(Finop::And, operands))
        };
        let ghost conclusion = expression;
        let assertions = vec![(Logic::Imp, expression)];
        proof {
            assert(assertions@ =~= seq![(Logic::Imp, conclusion)]);
        }
        let implication = Expr::with_metadata(
            TypedMetadata::resolved(TypeExpr::Bool),
            RawExpr::LogicChain(LogicChain { start: antecedent, assertions }),
        );
        let ghost start = side_conditions@;
        proof {
            assert(givens@.take(0) =~= Seq::<PreparedExpression>::empty());
            assert forall|k: int| 0 <= k < start.len() implies same_condition(#[trigger] start[k], start[k]) by {
                lemma_same_condition_reflexive(start[k]);
            }
            lemma_givens_accepted_prefix(start, givens@, givens@.len() as int);
        }
        let mut g: usize = 0;
        while g < givens.len()
            invariant
                g <= givens@.len(),
                forall|m: int| 0 <= m <= givens@.len() ==> givens_accepted(start, #[trigger] givens@.take(m)),
                same_conditions(side_conditions@, merged_givens(start, givens@.take(g as int))),
            decreases givens@.len() - g,
        {
            let ghost before = side_conditions@;
            let ghost earlier = merged_givens(start, givens@.take(g as int));
            proof {
                assert(givens@.take(g + 1).drop_last() =~= givens@.take(g as int));
                assert(givens_accepted(start, givens@.take(g + 1)));
                lemma_merged_congruent(earlier, before, givens@[g as int].side_conditions@);
                assert forall|k: int| 0 <= k < before.len() implies same_condition(#[trigger] earlier[k], before[k]) by {
                    lemma_same_condition_symmetric(before[k], earlier[k]);
                }
            }
            merge_side_conditions(&mut side_conditions, &givens[g].side_conditions);
            proof {
                let target = merged_givens(start, givens@.take(g + 1));
                assert(target == merged(earlier, givens@[g as int].side_conditions@));
                lemma_same_conditions_transitive(
                    side_conditions@,
                    merged(before, givens@[g as int].side_conditions@),
                    target,
                );
            }
            g = g + 1;
        }
        proof {
            assert(givens@.take(givens@.len() as int) =~= givens@);
        }
        PreparedExpression { expression: implication, side_conditions, context }
    }
}

proof fn lemma_givens_accepted_prefix(existing: Seq<SideCondition<TypedMetadata>>, givens: Seq<PreparedExpression>, n: int)
    requires
        0 <= n <= givens.len(),
        givens_accepted(existing, givens),
    ensures
        forall|m: int| 0 <= m <= n ==> givens_accepted(existing, #[trigger] givens.take(m)),
    decreases givens.len(),
{
    assert(givens.take(givens.len() as int) =~= givens);
    if givens.len() > 0 {
        lemma_givens_accepted_prefix(existing, givens.drop_last(), if n == givens.len() { n - 1 } else { n });
        assert forall|m: int| 0 <= m <= n implies givens_accepted(existing, #[trigger] givens.take(m)) by {
            if m < givens.len() {
                assert(givens.take(m) =~= givens.drop_last().take(m));
            }
        }
    }
}

proof fn lemma_same_condition_symmetric(a: SideCondition<TypedMetadata>, b: SideCondition<TypedMetadata>)
    requires
        same_condition(a, b),
    ensures
        same_condition(b, a),
{
}

proof fn lemma_same_conditions_transitive(a: Seq<SideCondition<TypedMetadata>>, b: Seq<SideCondition<TypedMetadata>>, c: Seq<SideCondition<TypedMetadata>>)
    requires
        same_conditions(a, b),
        same_conditions(b, c),
    ensures
        same_conditions(a, c),
{
    assert forall|i: int| 0 <= i < a.len() implies same_condition(#[trigger] a[i], c[i]) by {
        assert(same_condition(a[i], b[i]));
        assert(same_condition(b[i], c[i]));
    }
}

} // verus!
