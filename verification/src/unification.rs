//! One-sided unification: matching a pattern whose metavariables may stand
//! for any expression against a candidate, respecting the variables that
//! sequence indices and quantifier premises bind on either side.
use vstd::prelude::*;

use crate::equality::same_model;
use crate::expression_utils::{distinct_variables, insert_variable, lemma_variable_set, variable_set};
use crate::formula::{fresh_walk, free_variables_of, quantifier_binders, walked};
use crate::operator_visitors::listed;
use crate::view::{comparison_views, lemma_comparison_views, lemma_logic_views, lemma_views, logic_views, type_view, views, ExprView, TypeView, VariableView};
use crate::{Cmp, Expr, Finop, Logic, RawExpr, TypeExpr, Variable};

verus! {

/// The state of a unification: what the metavariables are assigned, and the
/// variables accessible and bound on either side; `stuck` records that the
/// free variables of a candidate could not be gathered because a sequence
/// index in it shadows a binder in scope.
pub struct Unification {
    pub assignments: Map<VariableView, ExprView>,
    pub pattern_accessible: Set<VariableView>,
    pub candidate_accessible: Set<VariableView>,
    pub pattern_bound: Set<VariableView>,
    pub candidate_bound: Set<VariableView>,
    pub stuck: bool,
}

/// `s` with the assignments and the stuck flag of `t`: the scopes are
/// restored after a nested match.
pub open spec fn with_outcome(s: Unification, t: Unification) -> Unification {
    Unification { assignments: t.assignments, stuck: t.stuck, ..s }
}

/// A failed match that changes nothing.
pub open spec fn mismatch(s: Unification) -> (bool, Unification) {
    (false, s)
}

/// The metavariable that a pattern is, if it is one that no binder of the
/// pattern shadows.
pub open spec fn metavariable(p: ExprView, metavariables: Set<VariableView>, s: Unification) -> Option<VariableView> {
    match p {
        ExprView::Variable(v) => if metavariables.contains(v) && !s.pattern_bound.contains(v) {
            Some(v)
        } else {
            None
        },
        _ => None,
    }
}

/// The variables that the premises of a quantifier (all its operands but the
/// last) leave free, outside `accessible`.
pub open spec fn premise_binders(operands: Seq<ExprView>, accessible: Set<VariableView>) -> Set<VariableView> {
    Set::new(
        |v: VariableView|
            !accessible.contains(v) && exists|i: int|
                0 <= i < operands.len() - 1 && #[trigger] walked(operands[i], fresh_walk()).found.contains(v),
    )
}

/// Whether the free variables of some premise cannot be gathered.
pub open spec fn premises_stuck(operands: Seq<ExprView>) -> bool {
    exists|i: int| 0 <= i < operands.len() - 1 && #[trigger] walked(operands[i], fresh_walk()).shadowed
}

/// Matches `p` against `c`: whether they match, and the state after.
/// A metavariable matches a candidate whose free variables avoid the
/// candidate's bound variables, and that equals what the metavariable was
/// assigned, if anything; other nodes match nodes of the same kind with the
/// same payload and matching children, in order, the first mismatch ending
/// the match (earlier assignments stay).
pub open spec fn unified(p: ExprView, c: ExprView, metavariables: Set<VariableView>, s: Unification) -> (bool, Unification)
    decreases p, 0nat,
{
    if s.stuck {
        mismatch(s)
    } else {
        match metavariable(p, metavariables, s) {
            Some(v) => {
                let free = walked(c, fresh_walk());
                if free.shadowed {
                    (false, Unification { stuck: true, ..s })
                } else if !free.found.disjoint(s.candidate_bound) {
                    mismatch(s)
                } else if s.assignments.contains_key(v) {
                    (s.assignments[v] == c, s)
                } else {
                    (true, Unification { assignments: s.assignments.insert(v, c), ..s })
                }
            },
            None => match (p, c) {
                (ExprView::Hole, ExprView::Hole) => (true, s),
                (ExprView::ImplicitDimension(a), ExprView::ImplicitDimension(b)) => (a == b, s),
                (ExprView::IdentityMatrix(a), ExprView::IdentityMatrix(b)) => (a == b, s),
                (ExprView::StandardBasis(ai, ad), ExprView::StandardBasis(bi, bd)) => if ad == bd {
                    unified(*ai, *bi, metavariables, s)
                } else {
                    mismatch(s)
                },
                (ExprView::ZeroMatrix(ar, ac), ExprView::ZeroMatrix(br, bc)) => (ar == br && ac == bc, s),
                (ExprView::Type(a), ExprView::Type(b)) => unified_type(a, b, metavariables, s),
                (ExprView::Variable(a), ExprView::Variable(b)) => (a == b, s),
                (ExprView::NatLiteral(a), ExprView::NatLiteral(b)) => (a == b, s),
                (ExprView::Matrix(ar, ac, ae), ExprView::Matrix(br, bc, be)) => if ar == br && ac == bc {
                    unified_seq(ae, be, metavariables, s)
                } else {
                    mismatch(s)
                },
                (ExprView::Monop(ao, a), ExprView::Monop(bo, b)) => if ao == bo {
                    unified(*a, *b, metavariables, s)
                } else {
                    mismatch(s)
                },
                (ExprView::Binop(ao, al, ar), ExprView::Binop(bo, bl, br)) => if ao == bo {
                    let left = unified(*al, *bl, metavariables, s);
                    if left.0 {
                        unified(*ar, *br, metavariables, left.1)
                    } else {
                        left
                    }
                } else {
                    mismatch(s)
                },
                (ExprView::Triop(ao, aa, ab, ac), ExprView::Triop(bo, ba, bb, bc)) => if ao == bo {
                    let first = unified(*aa, *ba, metavariables, s);
                    if first.0 {
                        let second = unified(*ab, *bb, metavariables, first.1);
                        if second.0 {
                            unified(*ac, *bc, metavariables, second.1)
                        } else {
                            second
                        }
                    } else {
                        first
                    }
                } else {
                    mismatch(s)
                },
                (ExprView::Finop(ao, a), ExprView::Finop(bo, b)) => if ao == bo {
                    if ao == Finop::Forall || ao == Finop::Exists {
                        unified_quantified(a, b, metavariables, s)
                    } else {
                        unified_seq(a, b, metavariables, s)
                    }
                } else {
                    mismatch(s)
                },
                (ExprView::CmpChain(astart, alinks), ExprView::CmpChain(bstart, blinks)) => if alinks.len()
                    == blinks.len() {
                    let start = unified(*astart, *bstart, metavariables, s);
                    if start.0 {
                        unified_links(alinks, blinks, metavariables, start.1)
                    } else {
                        start
                    }
                } else {
                    mismatch(s)
                },
                (ExprView::LogicChain(astart, alinks), ExprView::LogicChain(bstart, blinks)) => if alinks.len()
                    == blinks.len() {
                    let start = unified(*astart, *bstart, metavariables, s);
                    if start.0 {
                        unified_links(alinks, blinks, metavariables, start.1)
                    } else {
                        start
                    }
                } else {
                    mismatch(s)
                },
                (ExprView::Seqop(ao, ai, af, at, ab), ExprView::Seqop(bo, bi, bf, bt, bb)) => if ao == bo && ai == bi {
                    let from = unified(*af, *bf, metavariables, s);
                    if from.0 {
                        let to = unified(*at, *bt, metavariables, from.1);
                        if to.0 {
                            unified_body(ai, bi, *ab, *bb, metavariables, to.1)
                        } else {
                            to
                        }
                    } else {
                        from
                    }
                } else {
                    mismatch(s)
                },
                _ => mismatch(s),
            },
        }
    }
}

/// The bodies of two sequence operations, their indices bound.
pub open spec fn unified_body(
    pattern_index: VariableView,
    candidate_index: VariableView,
    p: ExprView,
    c: ExprView,
    metavariables: Set<VariableView>,
    s: Unification,
) -> (bool, Unification)
    decreases p, 1nat,
{
    if s.stuck {
        mismatch(s)
    } else {
        let inner = Unification {
            pattern_bound: s.pattern_bound.insert(pattern_index),
            candidate_bound: s.candidate_bound.insert(candidate_index),
            ..s
        };
        let result = unified(p, c, metavariables, inner);
        (result.0, with_outcome(s, result.1))
    }
}

/// Two types: scalar types match themselves, and matrix and sequence types
/// match by their dimensions.
pub open spec fn unified_type(a: TypeView, b: TypeView, metavariables: Set<VariableView>, s: Unification) -> (bool, Unification)
    decreases a, 0nat,
{
    if s.stuck {
        mismatch(s)
    } else {
        match (a, b) {
            (TypeView::Bool, TypeView::Bool) | (TypeView::Nat, TypeView::Nat) | (TypeView::Int, TypeView::Int)
            | (TypeView::Real, TypeView::Real) => (true, s),
            (TypeView::Matrix(ar, ac), TypeView::Matrix(br, bc)) => {
                let first = unified(*ar, *br, metavariables, s);
                if first.0 {
                    unified(*ac, *bc, metavariables, first.1)
                } else {
                    first
                }
            },
            (TypeView::Sequence(ar, ac), TypeView::Sequence(br, bc)) => {
                let first = unified(*ar, *br, metavariables, s);
                if first.0 {
                    unified(*ac, *bc, metavariables, first.1)
                } else {
                    first
                }
            },
            _ => mismatch(s),
        }
    }
}

/// Two lists of the same length, member by member.
pub open spec fn unified_seq(a: Seq<ExprView>, b: Seq<ExprView>, metavariables: Set<VariableView>, s: Unification) -> (bool, Unification)
    decreases a, 1nat,
{
    if s.stuck || a.len() != b.len() {
        mismatch(s)
    } else if a.len() == 0 {
        (true, s)
    } else {
        let prior = unified_seq(a.drop_last(), b.drop_last(), metavariables, s);
        if prior.0 {
            unified(a.last(), b.last(), metavariables, prior.1)
        } else {
            prior
        }
    }
}

/// Two lists of links of the same length, link by link.
pub open spec fn unified_links<O>(
    a: Seq<(O, ExprView)>,
    b: Seq<(O, ExprView)>,
    metavariables: Set<VariableView>,
    s: Unification,
) -> (bool, Unification)
    decreases a, 1nat,
{
    if s.stuck || a.len() != b.len() {
        mismatch(s)
    } else if a.len() == 0 {
        (true, s)
    } else {
        let prior = unified_links(a.drop_last(), b.drop_last(), metavariables, s);
        if prior.0 {
            if a.last().0 == b.last().0 {
                unified(a.last().1, b.last().1, metavariables, prior.1)
            } else {
                (false, prior.1)
            }
        } else {
            prior
        }
    }
}

/// The operands of two quantifiers: the variables their premises introduce
/// are bound and accessible while they are matched.
pub open spec fn unified_quantified(
    a: Seq<ExprView>,
    b: Seq<ExprView>,
    metavariables: Set<VariableView>,
    s: Unification,
) -> (bool, Unification)
    decreases a, 2nat,
{
    if s.stuck || a.len() != b.len() {
        mismatch(s)
    } else if premises_stuck(a) || premises_stuck(b) {
        (false, Unification { stuck: true, ..s })
    } else {
        let pattern_binders = premise_binders(a, s.pattern_accessible);
        let candidate_binders = premise_binders(b, s.candidate_accessible);
        let inner = Unification {
            pattern_bound: s.pattern_bound.union(pattern_binders),
            candidate_bound: s.candidate_bound.union(candidate_binders),
            pattern_accessible: s.pattern_accessible.union(pattern_binders),
            candidate_accessible: s.candidate_accessible.union(candidate_binders),
            ..s
        };
        let result = unified_seq(a, b, metavariables, inner);
        (result.0, with_outcome(s, result.1))
    }
}


/// Whether two states have the same scopes.
pub open spec fn same_scopes(s: Unification, t: Unification) -> bool {
    &&& s.pattern_accessible == t.pattern_accessible
    &&& s.candidate_accessible == t.candidate_accessible
    &&& s.pattern_bound == t.pattern_bound
    &&& s.candidate_bound == t.candidate_bound
}

/// A match leaves the scopes as it found them, and a stuck match fails.
proof fn lemma_unified_shape(p: ExprView, c: ExprView, m: Set<VariableView>, s: Unification)
    ensures
        same_scopes(unified(p, c, m, s).1, s),
        unified(p, c, m, s).1.stuck ==> !unified(p, c, m, s).0,
    decreases p, 0nat,
{
    if !s.stuck && metavariable(p, m, s) is None {
        match (p, c) {
            (ExprView::StandardBasis(ai, _), ExprView::StandardBasis(bi, _)) => lemma_unified_shape(*ai, *bi, m, s),
            (ExprView::Type(a), ExprView::Type(b)) => lemma_unified_type_shape(a, b, m, s),
            (ExprView::Matrix(_, _, ae), ExprView::Matrix(_, _, be)) => lemma_unified_seq_shape(ae, be, m, s),
            (ExprView::Monop(_, a), ExprView::Monop(_, b)) => lemma_unified_shape(*a, *b, m, s),
            (ExprView::Binop(_, al, ar), ExprView::Binop(_, bl, br)) => {
                lemma_unified_shape(*al, *bl, m, s);
                lemma_unified_shape(*ar, *br, m, unified(*al, *bl, m, s).1);
            },
            (ExprView::Triop(_, aa, ab, ac), ExprView::Triop(_, ba, bb, bc)) => {
                let first = unified(*aa, *ba, m, s);
                lemma_unified_shape(*aa, *ba, m, s);
                lemma_unified_shape(*ab, *bb, m, first.1);
                lemma_unified_shape(*ac, *bc, m, unified(*ab, *bb, m, first.1).1);
            },
            (ExprView::Finop(_, a), ExprView::Finop(_, b)) => {
                lemma_unified_seq_shape(a, b, m, s);
                lemma_unified_quantified_shape(a, b, m, s);
            },
            (ExprView::CmpChain(astart, alinks), ExprView::CmpChain(bstart, blinks)) => {
                lemma_unified_shape(*astart, *bstart, m, s);
                lemma_unified_links_shape(alinks, blinks, m, unified(*astart, *bstart, m, s).1);
            },
            (ExprView::LogicChain(astart, alinks), ExprView::LogicChain(bstart, blinks)) => {
                lemma_unified_shape(*astart, *bstart, m, s);
                lemma_unified_links_shape(alinks, blinks, m, unified(*astart, *bstart, m, s).1);
            },
            (ExprView::Seqop(_, ai, af, at, ab), ExprView::Seqop(_, bi, bf, bt, bb)) => {
                let from = unified(*af, *bf, m, s);
                lemma_unified_shape(*af, *bf, m, s);
                lemma_unified_shape(*at, *bt, m, from.1);
                lemma_unified_body_shape(ai, bi, *ab, *bb, m, unified(*at, *bt, m, from.1).1);
            },
            _ => {},
        }
    }
}

proof fn lemma_unified_body_shape(
    pi: VariableView,
    ci: VariableView,
    p: ExprView,
    c: ExprView,
    m: Set<VariableView>,
    s: Unification,
)
    ensures
        same_scopes(unified_body(pi, ci, p, c, m, s).1, s),
        unified_body(pi, ci, p, c, m, s).1.stuck ==> !unified_body(pi, ci, p, c, m, s).0,
    decreases p, 1nat,
{
    if !s.stuck {
        let inner = Unification {
            pattern_bound: s.pattern_bound.insert(pi),
            candidate_bound: s.candidate_bound.insert(ci),
            ..s
        };
        lemma_unified_shape(p, c, m, inner);
    }
}

proof fn lemma_unified_type_shape(a: TypeView, b: TypeView, m: Set<VariableView>, s: Unification)
    ensures
        same_scopes(unified_type(a, b, m, s).1, s),
        unified_type(a, b, m, s).1.stuck ==> !unified_type(a, b, m, s).0,
    decreases a, 0nat,
{
    if !s.stuck {
        match (a, b) {
            (TypeView::Matrix(ar, ac), TypeView::Matrix(br, bc)) => {
                lemma_unified_shape(*ar, *br, m, s);
                lemma_unified_shape(*ac, *bc, m, unified(*ar, *br, m, s).1);
            },
            (TypeView::Sequence(ar, ac), TypeView::Sequence(br, bc)) => {
                lemma_unified_shape(*ar, *br, m, s);
                lemma_unified_shape(*ac, *bc, m, unified(*ar, *br, m, s).1);
            },
            _ => {},
        }
    }
}

proof fn lemma_unified_seq_shape(a: Seq<ExprView>, b: Seq<ExprView>, m: Set<VariableView>, s: Unification)
    ensures
        same_scopes(unified_seq(a, b, m, s).1, s),
        unified_seq(a, b, m, s).1.stuck ==> !unified_seq(a, b, m, s).0,
    decreases a, 1nat,
{
    if !s.stuck && a.len() == b.len() && a.len() > 0 {
        lemma_unified_seq_shape(a.drop_last(), b.drop_last(), m, s);
        lemma_unified_shape(a.last(), b.last(), m, unified_seq(a.drop_last(), b.drop_last(), m, s).1);
    }
}

proof fn lemma_unified_links_shape<O>(a: Seq<(O, ExprView)>, b: Seq<(O, ExprView)>, m: Set<VariableView>, s: Unification)
    ensures
        same_scopes(unified_links(a, b, m, s).1, s),
        unified_links(a, b, m, s).1.stuck ==> !unified_links(a, b, m, s).0,
    decreases a, 1nat,
{
    if !s.stuck && a.len() == b.len() && a.len() > 0 {
        lemma_unified_links_shape(a.drop_last(), b.drop_last(), m, s);
        lemma_unified_shape(a.last().1, b.last().1, m, unified_links(a.drop_last(), b.drop_last(), m, s).1);
    }
}

proof fn lemma_unified_quantified_shape(a: Seq<ExprView>, b: Seq<ExprView>, m: Set<VariableView>, s: Unification)
    ensures
        same_scopes(unified_quantified(a, b, m, s).1, s),
        unified_quantified(a, b, m, s).1.stuck ==> !unified_quantified(a, b, m, s).0,
    decreases a, 2nat,
{
    if !s.stuck && a.len() == b.len() && !premises_stuck(a) && !premises_stuck(b) {
        let pattern_binders = premise_binders(a, s.pattern_accessible);
        let candidate_binders = premise_binders(b, s.candidate_accessible);
        let inner = Unification {
            pattern_bound: s.pattern_bound.union(pattern_binders),
            candidate_bound: s.candidate_bound.union(candidate_binders),
            pattern_accessible: s.pattern_accessible.union(pattern_binders),
            candidate_accessible: s.candidate_accessible.union(candidate_binders),
            ..s
        };
        lemma_unified_seq_shape(a, b, m, inner);
    }
}

/// A list match that fails on a prefix fails as the prefix does.
proof fn lemma_unified_seq_prefix(a: Seq<ExprView>, b: Seq<ExprView>, m: Set<VariableView>, s: Unification, k: int)
    requires
        a.len() == b.len(),
        0 <= k <= a.len(),
        !unified_seq(a.take(k), b.take(k), m, s).0,
    ensures
        unified_seq(a, b, m, s) == unified_seq(a.take(k), b.take(k), m, s),
    decreases a.len() - k,
{
    if k < a.len() {
        assert(a.take(k + 1).drop_last() =~= a.take(k));
        assert(b.take(k + 1).drop_last() =~= b.take(k));
        lemma_unified_seq_prefix(a, b, m, s, k + 1);
    } else {
        assert(a.take(k) =~= a);
        assert(b.take(k) =~= b);
    }
}

/// The link form of `lemma_unified_seq_prefix`.
proof fn lemma_unified_links_prefix<O>(a: Seq<(O, ExprView)>, b: Seq<(O, ExprView)>, m: Set<VariableView>, s: Unification, k: int)
    requires
        a.len() == b.len(),
        0 <= k <= a.len(),
        !unified_links(a.take(k), b.take(k), m, s).0,
    ensures
        unified_links(a, b, m, s) == unified_links(a.take(k), b.take(k), m, s),
    decreases a.len() - k,
{
    if k < a.len() {
        assert(a.take(k + 1).drop_last() =~= a.take(k));
        assert(b.take(k + 1).drop_last() =~= b.take(k));
        lemma_unified_links_prefix(a, b, m, s, k + 1);
    } else {
        assert(a.take(k) =~= a);
        assert(b.take(k) =~= b);
    }
}


/// The assignments of a list of metavariable-expression pairs.
pub open spec fn assignment_map(s: Seq<(Variable, Expr<()>)>) -> Map<VariableView, ExprView>
    decreases s.len(),
{
    if s.len() == 0 {
        Map::empty()
    } else {
        assignment_map(s.drop_last()).insert(s.last().0.view_variable(), s.last().1@)
    }
}

/// No metavariable is assigned twice.
pub open spec fn distinct_keys(s: Seq<(Variable, Expr<()>)>) -> bool {
    forall|i: int, j: int| 0 <= i < j < s.len() ==> s[i].0.view_variable() != s[j].0.view_variable()
}

/// An assigned metavariable is assigned by its entry, and only listed
/// metavariables are assigned.
proof fn lemma_assignment_map(s: Seq<(Variable, Expr<()>)>)
    requires
        distinct_keys(s),
    ensures
        forall|i: int| 0 <= i < s.len() ==> #[trigger] assignment_map(s).contains_key(s[i].0.view_variable())
            && assignment_map(s)[s[i].0.view_variable()] == s[i].1@,
        forall|v: VariableView| assignment_map(s).contains_key(v) ==> exists|i: int| 0 <= i < s.len() && s[i].0.view_variable() == v,
    decreases s.len(),
{
    if s.len() > 0 {
        let rest = s.drop_last();
        let last = s.len() - 1;
        assert forall|i: int, j: int| 0 <= i < j < rest.len() implies rest[i].0.view_variable() != rest[j].0.view_variable() by {
            assert(rest[i] == s[i] && rest[j] == s[j]);
        }
        lemma_assignment_map(rest);
        assert forall|i: int| 0 <= i < s.len() implies #[trigger] assignment_map(s).contains_key(s[i].0.view_variable())
            && assignment_map(s)[s[i].0.view_variable()] == s[i].1@ by {
            if i < last {
                assert(rest[i] == s[i]);
                assert(s[i].0.view_variable() != s[last].0.view_variable());
                assert(assignment_map(rest).contains_key(rest[i].0.view_variable()));
            }
        }
        assert forall|v: VariableView| assignment_map(s).contains_key(v) implies exists|i: int| 0 <= i < s.len() && s[i].0.view_variable() == v by {
            if v != s[last].0.view_variable() {
                assert(assignment_map(rest).contains_key(v));
                let i = choose|i: int| 0 <= i < rest.len() && rest[i].0.view_variable() == v;
                assert(s[i] == rest[i]);
            } else {
                assert(s[last].0.view_variable() == v);
            }
        }
    }
}

/// Whether a variable of `found` is listed in `bound`.
fn meets(found: &Vec<Variable>, bound: &Vec<Variable>) -> (meets: bool)
    ensures
        meets == !variable_set(found@).disjoint(variable_set(bound@)),
{
    proof {
        lemma_variable_set(found@);
    }
    let mut i: usize = 0;
    while i < found.len()
        invariant
            i <= found.len(),
            forall|j: int| 0 <= j < i ==> !variable_set(bound@).contains(#[trigger] found@[j].view_variable()),
        decreases found.len() - i,
    {
        if listed(bound, &found[i]) {
            proof {
                lemma_variable_set(found@);
                assert(variable_set(found@).contains(found@[i as int].view_variable()));
            }
            return true;
        }
        i = i + 1;
    }
    proof {
        lemma_variable_set(found@);
        assert forall|v: VariableView| variable_set(found@).contains(v) implies !variable_set(bound@).contains(v) by {
            let j = choose|j: int| 0 <= j < found@.len() && found@[j].view_variable() == v;
        }
    }
    false
}

/// Where `variable` is assigned, if it is.
fn assignment_index(assignments: &Vec<(Variable, Expr<()>)>, variable: &Variable) -> (index: Option<usize>)
    requires
        distinct_keys(assignments@),
    ensures
        match index {
            Some(k) => k < assignments.len() && assignments@[k as int].0.view_variable() == variable.view_variable(),
            None => !assignment_map(assignments@).contains_key(variable.view_variable()),
        },
{
    proof {
        lemma_assignment_map(assignments@);
    }
    let mut k: usize = 0;
    while k < assignments.len()
        invariant
            k <= assignments.len(),
            forall|j: int| 0 <= j < k ==> (#[trigger] assignments@[j]).0.view_variable() != variable.view_variable(),
        decreases assignments.len() - k,
    {
        if assignments[k].0.same(variable) {
            return Some(k);
        }
        k = k + 1;
    }
    proof {
        lemma_assignment_map(assignments@);
        if assignment_map(assignments@).contains_key(variable.view_variable()) {
            let j = choose|j: int| 0 <= j < assignments@.len() && assignments@[j].0.view_variable() == variable.view_variable();
        }
    }
    None
}

/// A copy of a list of variables with the same models.
fn copy_variables(variables: &Vec<Variable>) -> (copy: Vec<Variable>)
    ensures
        copy@.len() == variables@.len(),
        forall|i: int| 0 <= i < variables@.len() ==> #[trigger] copy@[i].view_variable() == variables@[i].view_variable(),
{
    let mut copy: Vec<Variable> = Vec::new();
    let mut i: usize = 0;
    while i < variables.len()
        invariant
            i <= variables.len(),
            copy@.len() == i,
            forall|j: int| 0 <= j < i ==> #[trigger] copy@[j].view_variable() == variables@[j].view_variable(),
        decreases variables.len() - i,
    {
        copy.push(variables[i].duplicate());
        i = i + 1;
    }
    copy
}

/// Lists whose members have the same models have the same variable sets.
proof fn lemma_same_variable_set(a: Seq<Variable>, b: Seq<Variable>)
    requires
        a.len() == b.len(),
        forall|i: int| 0 <= i < a.len() ==> #[trigger] a[i].view_variable() == b[i].view_variable(),
    ensures
        variable_set(a) == variable_set(b),
        distinct_variables(a) ==> distinct_variables(b),
    decreases a.len(),
{
    if a.len() > 0 {
        lemma_same_variable_set(a.drop_last(), b.drop_last());
        assert(a.last().view_variable() == b.last().view_variable());
        if distinct_variables(a) {
            assert forall|i: int, j: int| 0 <= i < j < b.len() implies b[i].view_variable() != b[j].view_variable() by {
                assert(a[i].view_variable() != a[j].view_variable());
            }
        }
    }
}

/// Matches patterns against candidates, accumulating the assignments of the
/// metavariables.
pub struct Unifier {
    pub metavariables: Vec<Variable>,
    pub assignments: Vec<(Variable, Expr<()>)>,
    pub pattern_accessible: Vec<Variable>,
    pub candidate_accessible: Vec<Variable>,
    pub pattern_bound: Vec<Variable>,
    pub candidate_bound: Vec<Variable>,
}

impl Unifier {
    /// The state of the unification.
    pub open spec fn state(&self) -> Unification {
        Unification {
            assignments: assignment_map(self.assignments@),
            pattern_accessible: variable_set(self.pattern_accessible@),
            candidate_accessible: variable_set(self.candidate_accessible@),
            pattern_bound: variable_set(self.pattern_bound@),
            candidate_bound: variable_set(self.candidate_bound@),
            stuck: false,
        }
    }

    /// The metavariables.
    pub open spec fn metavariable_set(&self) -> Set<VariableView> {
        variable_set(self.metavariables@)
    }

    /// No metavariable is assigned twice and no list repeats a variable.
    pub open spec fn well_formed(&self) -> bool {
        &&& distinct_keys(self.assignments@)
        &&& distinct_variables(self.pattern_accessible@)
        &&& distinct_variables(self.candidate_accessible@)
        &&& distinct_variables(self.pattern_bound@)
        &&& distinct_variables(self.candidate_bound@)
    }

    /// The scopes are exactly those of `other`.
    pub open spec fn same_lists(&self, other: &Self) -> bool {
        &&& self.metavariables@ == other.metavariables@
        &&& self.pattern_accessible@ == other.pattern_accessible@
        &&& self.candidate_accessible@ == other.candidate_accessible@
        &&& self.pattern_bound@ == other.pattern_bound@
        &&& self.candidate_bound@ == other.candidate_bound@
    }

    /// Matches `pattern` against `candidate`, as `unified` describes it.
    #[verifier::rlimit(80)]
    pub fn expression(&mut self, pattern: &Expr<()>, candidate: &Expr<()>) -> (matched: bool)
        requires
            old(self).well_formed(),
            !unified(pattern@, candidate@, old(self).metavariable_set(), old(self).state()).1.stuck,
        ensures
            final(self).well_formed(),
            final(self).same_lists(old(self)),
            (matched, final(self).state()) == unified(pattern@, candidate@, old(self).metavariable_set(), old(self).state()),
        decreases *pattern, 0nat,
    {
        let ghost m = self.metavariable_set();
        let ghost s = self.state();
        proof {
            lemma_unified_shape(pattern@, candidate@, m, s);
        }
        if let RawExpr::Variable(variable) = pattern.raw() {
            if listed(&self.metavariables, variable) && !listed(&self.pattern_bound, variable) {
                return self.assign(variable, candidate);
            }
        }
        match (pattern.raw(), candidate.raw()) {
            (RawExpr::Hole, RawExpr::Hole) => true,
            (RawExpr::ImplicitDimension(a), RawExpr::ImplicitDimension(b)) => a.0 == b.0,
            (RawExpr::IdentityMatrix { dimension: a }, RawExpr::IdentityMatrix { dimension: b }) => a.0 == b.0,
            (
                RawExpr::StandardBasis { index: ai, dimension: ad },
                RawExpr::StandardBasis { index: bi, dimension: bd },
            ) => ad.0 == bd.0 && self.expression(ai, bi),
            (RawExpr::ZeroMatrix { rows: ar, cols: ac }, RawExpr::ZeroMatrix { rows: br, cols: bc }) => {
                ar.0 == br.0 && ac.0 == bc.0
            },
            (RawExpr::Type(a), RawExpr::Type(b)) => self.type_expr(a, b),
            (RawExpr::Variable(a), RawExpr::Variable(b)) => a.same(b),
            (RawExpr::NatLiteral(a), RawExpr::NatLiteral(b)) => *a == *b,
            (RawExpr::Matrix(a), RawExpr::Matrix(b)) => {
                a.rows == b.rows && a.cols == b.cols && self.expressions(&a.elements, &b.elements)
            },
            (RawExpr::Monop(ao, a), RawExpr::Monop(bo, b)) => *ao == *bo && self.expression(a, b),
            (RawExpr::Binop(ao, al, ar), RawExpr::Binop(bo, bl, br)) => {
                if *ao != *bo {
                    return false;
                }
                proof {
                    lemma_unified_shape(al@, bl@, m, s);
                }
                self.expression(al, bl) && self.expression(ar, br)
            },
            (RawExpr::Triop(ao, aa, ab, ac), RawExpr::Triop(bo, ba, bb, bc)) => {
                if *ao != *bo {
                    return false;
                }
                proof {
                    lemma_unified_shape(aa@, ba@, m, s);
                    lemma_unified_shape(ab@, bb@, m, unified(aa@, ba@, m, s).1);
                }
                self.expression(aa, ba) && self.expression(ab, bb) && self.expression(ac, bc)
            },
            (RawExpr::Finop(ao, a), RawExpr::Finop(bo, b)) => {
                if *ao != *bo {
                    return false;
                }
                match ao {
                    Finop::Forall | Finop::Exists => self.quantified_expressions(a, b),
                    _ => self.expressions(a, b),
                }
            },
            (RawExpr::CmpChain(a), RawExpr::CmpChain(b)) => {
                proof {
                    lemma_comparison_views(a.assertions@);
                    lemma_comparison_views(b.assertions@);
                    lemma_unified_shape(a.start@, b.start@, m, s);
                }
                a.assertions.len() == b.assertions.len() && self.expression(&a.start, &b.start)
                    && self.comparisons(&a.assertions, &b.assertions)
            },
            (RawExpr::LogicChain(a), RawExpr::LogicChain(b)) => {
                proof {
                    lemma_logic_views(a.assertions@);
                    lemma_logic_views(b.assertions@);
                    lemma_unified_shape(a.start@, b.start@, m, s);
                }
                a.assertions.len() == b.assertions.len() && self.expression(&a.start, &b.start)
                    && self.logic(&a.assertions, &b.assertions)
            },
            (RawExpr::Seqop(ao, ar, ab), RawExpr::Seqop(bo, br, bb)) => {
                if *ao != *bo || !ar.index_variable.same(&br.index_variable) {
                    return false;
                }
                proof {
                    lemma_unified_shape(ar.from@, br.from@, m, s);
                    lemma_unified_shape(ar.to@, br.to@, m, unified(ar.from@, br.from@, m, s).1);
                }
                self.expression(&ar.from, &br.from) && self.expression(&ar.to, &br.to) && self.bound_sequence_body(
                    &ar.index_variable,
                    &br.index_variable,
                    ab,
                    bb,
                )
            },
            _ => false,
        }
    }

    /// Matches the metavariable `variable` against `candidate`.
    fn assign(&mut self, variable: &Variable, candidate: &Expr<()>) -> (matched: bool)
        requires
            old(self).well_formed(),
            old(self).metavariable_set().contains(variable.view_variable()),
            !old(self).state().pattern_bound.contains(variable.view_variable()),
            !unified(
                ExprView::Variable(variable.view_variable()),
                candidate@,
                old(self).metavariable_set(),
                old(self).state(),
            ).1.stuck,
        ensures
            final(self).well_formed(),
            final(self).same_lists(old(self)),
            (matched, final(self).state()) == unified(
                ExprView::Variable(variable.view_variable()),
                candidate@,
                old(self).metavariable_set(),
                old(self).state(),
            ),
    {
        let free = free_variables_of(candidate);
        if meets(&free, &self.candidate_bound) {
            return false;
        }
        match assignment_index(&self.assignments, variable) {
            Some(k) => {
                proof {
                    lemma_assignment_map(self.assignments@);
                }
                same_model(&self.assignments[k].1, candidate)
            },
            None => {
                let ghost before = self.assignments@;
                self.assignments.push((variable.duplicate(), candidate.clone()));
                proof {
                    assert(self.assignments@.drop_last() =~= before);
                    assert forall|i: int, j: int| 0 <= i < j < self.assignments@.len() implies self.assignments@[i].0.view_variable()
                        != self.assignments@[j].0.view_variable() by {
                        if j == self.assignments@.len() - 1 {
                            assert(before[i] == self.assignments@[i]);
                            lemma_assignment_map(before);
                        }
                    }
                }
                true
            },
        }
    }

    /// Matches two types, as `unified_type` describes it.
    fn type_expr(&mut self, pattern: &TypeExpr<()>, candidate: &TypeExpr<()>) -> (matched: bool)
        requires
            old(self).well_formed(),
            !unified_type(type_view(*pattern), type_view(*candidate), old(self).metavariable_set(), old(self).state()).1.stuck,
        ensures
            final(self).well_formed(),
            final(self).same_lists(old(self)),
            (matched, final(self).state()) == unified_type(
                type_view(*pattern),
                type_view(*candidate),
                old(self).metavariable_set(),
                old(self).state(),
            ),
        decreases *pattern, 0nat,
    {
        let ghost m = self.metavariable_set();
        let ghost s = self.state();
        match (pattern, candidate) {
            (TypeExpr::Bool, TypeExpr::Bool) | (TypeExpr::Nat, TypeExpr::Nat) | (TypeExpr::Int, TypeExpr::Int) | (
                TypeExpr::Real,
                TypeExpr::Real,
            ) => true,
            (TypeExpr::Matrix(ar, ac), TypeExpr::Matrix(br, bc)) => {
                proof {
                    lemma_unified_shape(ar@, br@, m, s);
                }
                self.expression(ar, br) && self.expression(ac, bc)
            },
            (TypeExpr::Sequence(ar, ac), TypeExpr::Sequence(br, bc)) => {
                proof {
                    lemma_unified_shape(ar@, br@, m, s);
                }
                self.expression(ar, br) && self.expression(ac, bc)
            },
            _ => false,
        }
    }

    /// Matches two lists of the same length, member by member.
    fn expressions(&mut self, pattern: &Vec<Expr<()>>, candidate: &Vec<Expr<()>>) -> (matched: bool)
        requires
            old(self).well_formed(),
            !unified_seq(views(pattern@), views(candidate@), old(self).metavariable_set(), old(self).state()).1.stuck,
        ensures
            final(self).well_formed(),
            final(self).same_lists(old(self)),
            (matched, final(self).state()) == unified_seq(
                views(pattern@),
                views(candidate@),
                old(self).metavariable_set(),
                old(self).state(),
            ),
        decreases pattern@, 0nat,
    {
        let ghost m = self.metavariable_set();
        let ghost s0 = self.state();
        let ghost a = views(pattern@);
        let ghost b = views(candidate@);
        proof {
            lemma_views(pattern@);
            lemma_views(candidate@);
        }
        if pattern.len() != candidate.len() {
            return false;
        }
        let mut i: usize = 0;
        proof {
            assert(a.take(0) =~= Seq::<ExprView>::empty());
            assert(b.take(0) =~= Seq::<ExprView>::empty());
        }
        while i < pattern.len()
            invariant
                i <= pattern.len(),
                pattern.len() == candidate.len(),
                self.well_formed(),
                self.same_lists(old(self)),
                m == self.metavariable_set(),
                m == old(self).metavariable_set(),
                s0 == old(self).state(),
                a == views(pattern@),
                b == views(candidate@),
                a.len() == pattern.len(),
                b.len() == candidate.len(),
                forall|j: int| 0 <= j < pattern.len() ==> #[trigger] a[j] == pattern@[j]@,
                forall|j: int| 0 <= j < candidate.len() ==> #[trigger] b[j] == candidate@[j]@,
                !unified_seq(a, b, m, s0).1.stuck,
                unified_seq(a.take(i as int), b.take(i as int), m, s0) == (true, self.state()),
            decreases pattern.len() - i,
        {
            proof {
                assert(a.take(i + 1).drop_last() =~= a.take(i as int));
                assert(b.take(i + 1).drop_last() =~= b.take(i as int));
                assert(a.take(i + 1).last() == a[i as int]);
                assert(b.take(i + 1).last() == b[i as int]);
                assert(decreases_to!(pattern@ => pattern@[i as int]));
                let step = unified(a[i as int], b[i as int], m, self.state());
                lemma_unified_shape(a[i as int], b[i as int], m, self.state());
                if step.1.stuck {
                    lemma_unified_seq_prefix(a, b, m, s0, i + 1);
                }
            }
            if !self.expression(&pattern[i], &candidate[i]) {
                proof {
                    lemma_unified_seq_prefix(a, b, m, s0, i + 1);
                }
                return false;
            }
            i = i + 1;
        }
        proof {
            assert(a.take(pattern.len() as int) =~= a);
            assert(b.take(candidate.len() as int) =~= b);
        }
        true
    }

    /// Matches two lists of comparison links of the same length.
    fn comparisons(&mut self, pattern: &Vec<(Cmp, Expr<()>)>, candidate: &Vec<(Cmp, Expr<()>)>) -> (matched: bool)
        requires
            old(self).well_formed(),
            !unified_links(comparison_views(pattern@), comparison_views(candidate@), old(self).metavariable_set(), old(self).state()).1.stuck,
        ensures
            final(self).well_formed(),
            final(self).same_lists(old(self)),
            (matched, final(self).state()) == unified_links(
                comparison_views(pattern@),
                comparison_views(candidate@),
                old(self).metavariable_set(),
                old(self).state(),
            ),
        decreases pattern@, 0nat,
    {
        let ghost m = self.metavariable_set();
        let ghost s0 = self.state();
        let ghost a = comparison_views(pattern@);
        let ghost b = comparison_views(candidate@);
        proof {
            lemma_comparison_views(pattern@);
            lemma_comparison_views(candidate@);
        }
        if pattern.len() != candidate.len() {
            return false;
        }
        let mut i: usize = 0;
        proof {
            assert(a.take(0) =~= Seq::<(Cmp, ExprView)>::empty());
            assert(b.take(0) =~= Seq::<(Cmp, ExprView)>::empty());
        }
        while i < pattern.len()
            invariant
                i <= pattern.len(),
                pattern.len() == candidate.len(),
                self.well_formed(),
                self.same_lists(old(self)),
                m == self.metavariable_set(),
                m == old(self).metavariable_set(),
                s0 == old(self).state(),
                a == comparison_views(pattern@),
                b == comparison_views(candidate@),
                a.len() == pattern.len(),
                b.len() == candidate.len(),
                forall|j: int| 0 <= j < pattern.len() ==> #[trigger] a[j] == (pattern@[j].0, pattern@[j].1@),
                forall|j: int| 0 <= j < candidate.len() ==> #[trigger] b[j] == (candidate@[j].0, candidate@[j].1@),
                !unified_links(a, b, m, s0).1.stuck,
                unified_links(a.take(i as int), b.take(i as int), m, s0) == (true, self.state()),
            decreases pattern.len() - i,
        {
            proof {
                assert(a.take(i + 1).drop_last() =~= a.take(i as int));
                assert(b.take(i + 1).drop_last() =~= b.take(i as int));
                assert(a.take(i + 1).last() == a[i as int]);
                assert(b.take(i + 1).last() == b[i as int]);
                assert(decreases_to!(pattern@ => pattern@[i as int]));
            }
            if pattern[i].0 != candidate[i].0 {
                proof {
                    lemma_unified_links_prefix(a, b, m, s0, i + 1);
                }
                return false;
            }
            proof {
                let step = unified(a[i as int].1, b[i as int].1, m, self.state());
                lemma_unified_shape(a[i as int].1, b[i as int].1, m, self.state());
                if step.1.stuck {
                    lemma_unified_links_prefix(a, b, m, s0, i + 1);
                }
            }
            if !self.expression(&pattern[i].1, &candidate[i].1) {
                proof {
                    lemma_unified_links_prefix(a, b, m, s0, i + 1);
                }
                return false;
            }
            i = i + 1;
        }
        proof {
            assert(a.take(pattern.len() as int) =~= a);
            assert(b.take(candidate.len() as int) =~= b);
        }
        true
    }

    /// Matches two lists of logic links of the same length.
    fn logic(&mut self, pattern: &Vec<(Logic, Expr<()>)>, candidate: &Vec<(Logic, Expr<()>)>) -> (matched: bool)
        requires
            old(self).well_formed(),
            !unified_links(logic_views(pattern@), logic_views(candidate@), old(self).metavariable_set(), old(self).state()).1.stuck,
        ensures
            final(self).well_formed(),
            final(self).same_lists(old(self)),
            (matched, final(self).state()) == unified_links(
                logic_views(pattern@),
                logic_views(candidate@),
                old(self).metavariable_set(),
                old(self).state(),
            ),
        decreases pattern@, 0nat,
    {
        let ghost m = self.metavariable_set();
        let ghost s0 = self.state();
        let ghost a = logic_views(pattern@);
        let ghost b = logic_views(candidate@);
        proof {
            lemma_logic_views(pattern@);
            lemma_logic_views(candidate@);
        }
        if pattern.len() != candidate.len() {
            return false;
        }
        let mut i: usize = 0;
        proof {
            assert(a.take(0) =~= Seq::<(Logic, ExprView)>::empty());
            assert(b.take(0) =~= Seq::<(Logic, ExprView)>::empty());
        }
        while i < pattern.len()
            invariant
                i <= pattern.len(),
                pattern.len() == candidate.len(),
                self.well_formed(),
                self.same_lists(old(self)),
                m == self.metavariable_set(),
                m == old(self).metavariable_set(),
                s0 == old(self).state(),
                a == logic_views(pattern@),
                b == logic_views(candidate@),
                a.len() == pattern.len(),
                b.len() == candidate.len(),
                forall|j: int| 0 <= j < pattern.len() ==> #[trigger] a[j] == (pattern@[j].0, pattern@[j].1@),
                forall|j: int| 0 <= j < candidate.len() ==> #[trigger] b[j] == (candidate@[j].0, candidate@[j].1@),
                !unified_links(a, b, m, s0).1.stuck,
                unified_links(a.take(i as int), b.take(i as int), m, s0) == (true, self.state()),
            decreases pattern.len() - i,
        {
            proof {
                assert(a.take(i + 1).drop_last() =~= a.take(i as int));
                assert(b.take(i + 1).drop_last() =~= b.take(i as int));
                assert(a.take(i + 1).last() == a[i as int]);
                assert(b.take(i + 1).last() == b[i as int]);
                assert(decreases_to!(pattern@ => pattern@[i as int]));
            }
            if pattern[i].0 != candidate[i].0 {
                proof {
                    lemma_unified_links_prefix(a, b, m, s0, i + 1);
                }
                return false;
            }
            proof {
                let step = unified(a[i as int].1, b[i as int].1, m, self.state());
                lemma_unified_shape(a[i as int].1, b[i as int].1, m, self.state());
                if step.1.stuck {
                    lemma_unified_links_prefix(a, b, m, s0, i + 1);
                }
            }
            if !self.expression(&pattern[i].1, &candidate[i].1) {
                proof {
                    lemma_unified_links_prefix(a, b, m, s0, i + 1);
                }
                return false;
            }
            i = i + 1;
        }
        proof {
            assert(a.take(pattern.len() as int) =~= a);
            assert(b.take(candidate.len() as int) =~= b);
        }
        true
    }

    /// Matches the operands of two quantifiers; the variables that their
    /// premises introduce are bound and accessible while they are matched.
    #[verifier::rlimit(80)]
    fn quantified_expressions(&mut self, pattern: &Vec<Expr<()>>, candidate: &Vec<Expr<()>>) -> (matched: bool)
        requires
            old(self).well_formed(),
            !unified_quantified(views(pattern@), views(candidate@), old(self).metavariable_set(), old(self).state()).1.stuck,
        ensures
            final(self).well_formed(),
            final(self).same_lists(old(self)),
            (matched, final(self).state()) == unified_quantified(
                views(pattern@),
                views(candidate@),
                old(self).metavariable_set(),
                old(self).state(),
            ),
        decreases pattern@, 1nat,
    {
        let ghost m = self.metavariable_set();
        let ghost s = self.state();
        let ghost a = views(pattern@);
        let ghost b = views(candidate@);
        proof {
            lemma_views(pattern@);
            lemma_views(candidate@);
        }
        if pattern.len() != candidate.len() {
            return false;
        }
        proof {
            assert forall|i: int| 0 <= i < pattern.len() - 1 implies !walked(#[trigger] pattern@[i]@, fresh_walk()).shadowed by {
                assert(a[i] == pattern@[i]@);
            }
            assert forall|i: int| 0 <= i < candidate.len() - 1 implies !walked(#[trigger] candidate@[i]@, fresh_walk()).shadowed by {
                assert(b[i] == candidate@[i]@);
            }
        }
        let pattern_binders = quantifier_binders(pattern, &self.pattern_accessible);
        let candidate_binders = quantifier_binders(candidate, &self.candidate_accessible);
        let ghost pb = premise_binders(a, s.pattern_accessible);
        let ghost cb = premise_binders(b, s.candidate_accessible);
        proof {
            assert(variable_set(pattern_binders@) =~= pb) by {
                assert forall|v: VariableView| pb.contains(v) implies variable_set(pattern_binders@).contains(v) by {
                    let i = choose|i: int| 0 <= i < a.len() - 1 && #[trigger] walked(a[i], fresh_walk()).found.contains(v);
                    assert(walked(pattern@[i]@, fresh_walk()).found.contains(v));
                }
                assert forall|v: VariableView| variable_set(pattern_binders@).contains(v) implies pb.contains(v) by {
                    let i = choose|i: int| 0 <= i < pattern.len() - 1 && #[trigger] walked(pattern@[i]@, fresh_walk()).found.contains(v);
                    assert(walked(a[i], fresh_walk()).found.contains(v));
                }
            }
            assert(variable_set(candidate_binders@) =~= cb) by {
                assert forall|v: VariableView| cb.contains(v) implies variable_set(candidate_binders@).contains(v) by {
                    let i = choose|i: int| 0 <= i < b.len() - 1 && #[trigger] walked(b[i], fresh_walk()).found.contains(v);
                    assert(walked(candidate@[i]@, fresh_walk()).found.contains(v));
                }
                assert forall|v: VariableView| variable_set(candidate_binders@).contains(v) implies cb.contains(v) by {
                    let i = choose|i: int| 0 <= i < candidate.len() - 1 && #[trigger] walked(candidate@[i]@, fresh_walk()).found.contains(v);
                    assert(walked(b[i], fresh_walk()).found.contains(v));
                }
            }
        }
        let mut saved_pattern_bound = copy_variables(&self.pattern_bound);
        let mut saved_candidate_bound = copy_variables(&self.candidate_bound);
        let mut saved_pattern_accessible = copy_variables(&self.pattern_accessible);
        let mut saved_candidate_accessible = copy_variables(&self.candidate_accessible);
        proof {
            lemma_same_variable_set(self.pattern_bound@, saved_pattern_bound@);
            lemma_same_variable_set(self.candidate_bound@, saved_candidate_bound@);
            lemma_same_variable_set(self.pattern_accessible@, saved_pattern_accessible@);
            lemma_same_variable_set(self.candidate_accessible@, saved_candidate_accessible@);
        }
        std::mem::swap(&mut self.pattern_bound, &mut saved_pattern_bound);
        std::mem::swap(&mut self.candidate_bound, &mut saved_candidate_bound);
        std::mem::swap(&mut self.pattern_accessible, &mut saved_pattern_accessible);
        std::mem::swap(&mut self.candidate_accessible, &mut saved_candidate_accessible);
        let ghost saved_candidate_bound_copy = self.candidate_bound@;
        let ghost saved_candidate_accessible_copy = self.candidate_accessible@;
        let mut k: usize = 0;
        proof {
            assert(variable_set(pattern_binders@.take(0)) =~= Set::<VariableView>::empty());
            assert(s.pattern_bound.union(Set::<VariableView>::empty()) =~= s.pattern_bound);
            assert(s.pattern_accessible.union(Set::<VariableView>::empty()) =~= s.pattern_accessible);
        }
        while k < pattern_binders.len()
            invariant
                k <= pattern_binders.len(),
                self.metavariables@ == old(self).metavariables@,
                self.assignments@ == old(self).assignments@,
                self.candidate_bound@ == saved_candidate_bound_copy,
                self.candidate_accessible@ == saved_candidate_accessible_copy,
                distinct_variables(self.candidate_bound@),
                distinct_variables(self.candidate_accessible@),
                variable_set(self.candidate_bound@) == s.candidate_bound,
                variable_set(self.candidate_accessible@) == s.candidate_accessible,
                distinct_variables(self.pattern_bound@),
                distinct_variables(self.pattern_accessible@),
                variable_set(self.pattern_bound@) == s.pattern_bound.union(variable_set(pattern_binders@.take(k as int))),
                variable_set(self.pattern_accessible@) == s.pattern_accessible.union(variable_set(pattern_binders@.take(k as int))),
            decreases pattern_binders.len() - k,
        {
            proof {
                assert(pattern_binders@.take(k + 1).drop_last() =~= pattern_binders@.take(k as int));
            }
            insert_variable(&mut self.pattern_bound, &pattern_binders[k]);
            insert_variable(&mut self.pattern_accessible, &pattern_binders[k]);
            proof {
                assert(variable_set(self.pattern_bound@) =~= s.pattern_bound.union(variable_set(pattern_binders@.take(k + 1))));
                assert(variable_set(self.pattern_accessible@) =~= s.pattern_accessible.union(variable_set(pattern_binders@.take(k + 1))));
            }
            k = k + 1;
        }
        proof {
            assert(pattern_binders@.take(pattern_binders.len() as int) =~= pattern_binders@);
        }
        let mut k: usize = 0;
        proof {
            assert(variable_set(candidate_binders@.take(0)) =~= Set::<VariableView>::empty());
            assert(s.candidate_bound.union(Set::<VariableView>::empty()) =~= s.candidate_bound);
            assert(s.candidate_accessible.union(Set::<VariableView>::empty()) =~= s.candidate_accessible);
        }
        while k < candidate_binders.len()
            invariant
                k <= candidate_binders.len(),
                self.metavariables@ == old(self).metavariables@,
                self.assignments@ == old(self).assignments@,
                distinct_variables(self.pattern_bound@),
                distinct_variables(self.pattern_accessible@),
                variable_set(self.pattern_bound@) == s.pattern_bound.union(pb),
                variable_set(self.pattern_accessible@) == s.pattern_accessible.union(pb),
                distinct_variables(self.candidate_bound@),
                distinct_variables(self.candidate_accessible@),
                variable_set(self.candidate_bound@) == s.candidate_bound.union(variable_set(candidate_binders@.take(k as int))),
                variable_set(self.candidate_accessible@) == s.candidate_accessible.union(variable_set(candidate_binders@.take(k as int))),
            decreases candidate_binders.len() - k,
        {
            proof {
                assert(candidate_binders@.take(k + 1).drop_last() =~= candidate_binders@.take(k as int));
            }
            insert_variable(&mut self.candidate_bound, &candidate_binders[k]);
            insert_variable(&mut self.candidate_accessible, &candidate_binders[k]);
            proof {
                assert(variable_set(self.candidate_bound@) =~= s.candidate_bound.union(variable_set(candidate_binders@.take(k + 1))));
                assert(variable_set(self.candidate_accessible@) =~= s.candidate_accessible.union(variable_set(candidate_binders@.take(k + 1))));
            }
            k = k + 1;
        }
        proof {
            assert(candidate_binders@.take(candidate_binders.len() as int) =~= candidate_binders@);
            let inner = Unification {
                pattern_bound: s.pattern_bound.union(pb),
                candidate_bound: s.candidate_bound.union(cb),
                pattern_accessible: s.pattern_accessible.union(pb),
                candidate_accessible: s.candidate_accessible.union(cb),
                ..s
            };
            assert(self.state() == inner);
            lemma_unified_seq_shape(a, b, m, inner);
        }
        let matched = self.expressions(pattern, candidate);
        std::mem::swap(&mut self.pattern_bound, &mut saved_pattern_bound);
        std::mem::swap(&mut self.candidate_bound, &mut saved_candidate_bound);
        std::mem::swap(&mut self.pattern_accessible, &mut saved_pattern_accessible);
        std::mem::swap(&mut self.candidate_accessible, &mut saved_candidate_accessible);
        matched
    }

    /// Matches the bodies of two sequence operations with their indices bound.
    fn bound_sequence_body(
        &mut self,
        pattern_index: &Variable,
        candidate_index: &Variable,
        pattern: &Expr<()>,
        candidate: &Expr<()>,
    ) -> (matched: bool)
        requires
            old(self).well_formed(),
            !unified_body(
                pattern_index.view_variable(),
                candidate_index.view_variable(),
                pattern@,
                candidate@,
                old(self).metavariable_set(),
                old(self).state(),
            ).1.stuck,
        ensures
            final(self).well_formed(),
            final(self).same_lists(old(self)),
            (matched, final(self).state()) == unified_body(
                pattern_index.view_variable(),
                candidate_index.view_variable(),
                pattern@,
                candidate@,
                old(self).metavariable_set(),
                old(self).state(),
            ),
        decreases *pattern, 1nat,
    {
        let ghost s = self.state();
        let ghost pattern_before = self.pattern_bound@;
        let ghost candidate_before = self.candidate_bound@;
        let pattern_was_bound = listed(&self.pattern_bound, pattern_index);
        if !pattern_was_bound {
            push_new(&mut self.pattern_bound, pattern_index);
        } else {
            proof {
                assert(s.pattern_bound.insert(pattern_index.view_variable()) =~= s.pattern_bound);
            }
        }
        let candidate_was_bound = listed(&self.candidate_bound, candidate_index);
        if !candidate_was_bound {
            push_new(&mut self.candidate_bound, candidate_index);
        } else {
            proof {
                assert(s.candidate_bound.insert(candidate_index.view_variable()) =~= s.candidate_bound);
            }
        }
        let matched = self.expression(pattern, candidate);
        if !pattern_was_bound {
            self.pattern_bound.pop();
        }
        if !candidate_was_bound {
            self.candidate_bound.pop();
        }
        proof {
            assert(self.pattern_bound@ =~= pattern_before);
            assert(self.candidate_bound@ =~= candidate_before);
        }
        matched
    }
}

/// Pushes a variable that is not yet listed.
fn push_new(variables: &mut Vec<Variable>, variable: &Variable)
    requires
        distinct_variables(old(variables)@),
        !variable_set(old(variables)@).contains(variable.view_variable()),
    ensures
        distinct_variables(final(variables)@),
        final(variables)@.drop_last() == old(variables)@,
        final(variables)@.len() == old(variables)@.len() + 1,
        variable_set(final(variables)@) == variable_set(old(variables)@).insert(variable.view_variable()),
{
    let ghost before = variables@;
    proof {
        lemma_variable_set(before);
    }
    variables.push(variable.duplicate());
    proof {
        assert(variables@.drop_last() =~= before);
        assert forall|i: int, j: int| 0 <= i < j < variables@.len() implies variables@[i].view_variable()
            != variables@[j].view_variable() by {
            if j == variables@.len() - 1 {
                assert(variable_set(before).contains(before[i].view_variable()));
            }
        }
    }
}

/// Whether two type views have the same kind.
pub open spec fn same_type_kind(a: TypeView, b: TypeView) -> bool {
    match (a, b) {
        (TypeView::Bool, TypeView::Bool) | (TypeView::Nat, TypeView::Nat) | (TypeView::Int, TypeView::Int)
        | (TypeView::Real, TypeView::Real) => true,
        (TypeView::Matrix(_, _), TypeView::Matrix(_, _)) | (TypeView::Sequence(_, _), TypeView::Sequence(_, _)) => true,
        _ => false,
    }
}

/// Whether the links of two chains have the same operators, position by
/// position.
pub open spec fn same_link_operators<O>(a: Seq<(O, ExprView)>, b: Seq<(O, ExprView)>) -> bool {
    a.len() == b.len() && forall|i: int| 0 <= i < a.len() ==> #[trigger] a[i].0 == b[i].0
}

/// Whether a pattern node and a candidate node are the same kind of node
/// with the same operator and the same payload: the same variable or
/// literal, the same dimensions, as many operands, links with the same
/// operators, sums over the same index.
pub open spec fn same_head(p: ExprView, c: ExprView) -> bool {
    match (p, c) {
        (ExprView::Hole, ExprView::Hole) => true,
        (ExprView::ImplicitDimension(a), ExprView::ImplicitDimension(b)) => a == b,
        (ExprView::IdentityMatrix(a), ExprView::IdentityMatrix(b)) => a == b,
        (ExprView::StandardBasis(_, a), ExprView::StandardBasis(_, b)) => a == b,
        (ExprView::ZeroMatrix(ar, ac), ExprView::ZeroMatrix(br, bc)) => ar == br && ac == bc,
        (ExprView::Type(a), ExprView::Type(b)) => same_type_kind(a, b),
        (ExprView::Variable(a), ExprView::Variable(b)) => a == b,
        (ExprView::NatLiteral(a), ExprView::NatLiteral(b)) => a == b,
        (ExprView::Matrix(ar, ac, ae), ExprView::Matrix(br, bc, be)) => ar == br && ac == bc && ae.len() == be.len(),
        (ExprView::Monop(a, _), ExprView::Monop(b, _)) => a == b,
        (ExprView::Binop(a, _, _), ExprView::Binop(b, _, _)) => a == b,
        (ExprView::Triop(a, _, _, _), ExprView::Triop(b, _, _, _)) => a == b,
        (ExprView::Finop(a, xs), ExprView::Finop(b, ys)) => a == b && xs.len() == ys.len(),
        (ExprView::CmpChain(_, a), ExprView::CmpChain(_, b)) => same_link_operators(a, b),
        (ExprView::LogicChain(_, a), ExprView::LogicChain(_, b)) => same_link_operators(a, b),
        (ExprView::Seqop(a, i, _, _, _), ExprView::Seqop(b, j, _, _, _)) => a == b && i == j,
        _ => false,
    }
}

/// Matched link lists have the same operators, position by position.
proof fn lemma_unified_links_operators<O>(
    a: Seq<(O, ExprView)>,
    b: Seq<(O, ExprView)>,
    metavariables: Set<VariableView>,
    s: Unification,
)
    requires
        unified_links(a, b, metavariables, s).0,
    ensures
        same_link_operators(a, b),
    decreases a.len(),
{
    if a.len() > 0 {
        let prior = unified_links(a.drop_last(), b.drop_last(), metavariables, s);
        lemma_unified_links_operators(a.drop_last(), b.drop_last(), metavariables, s);
        assert forall|i: int| 0 <= i < a.len() implies #[trigger] a[i].0 == b[i].0 by {
            if i < a.len() - 1 {
                assert(a.drop_last()[i] == a[i]);
                assert(b.drop_last()[i] == b[i]);
            }
        }
    }
}

/// A match only pairs like with like: whenever a pattern matches a
/// candidate, either the pattern is a metavariable or the two are the same
/// kind of node with the same operator and payload, so that for instance
/// `\det(X)` never matches `\operatorname{tr}(A)`.
pub proof fn law_matches_agree_on_operators(p: ExprView, c: ExprView, metavariables: Set<VariableView>, s: Unification)
    requires
        unified(p, c, metavariables, s).0,
    ensures
        metavariable(p, metavariables, s) is Some || same_head(p, c),
{
    if metavariable(p, metavariables, s) is None {
        match (p, c) {
            (ExprView::CmpChain(pa, la), ExprView::CmpChain(pb, lb)) => {
                let start = unified(*pa, *pb, metavariables, s);
                lemma_unified_links_operators(la, lb, metavariables, start.1);
            },
            (ExprView::LogicChain(pa, la), ExprView::LogicChain(pb, lb)) => {
                let start = unified(*pa, *pb, metavariables, s);
                lemma_unified_links_operators(la, lb, metavariables, start.1);
            },
            (ExprView::Type(a), ExprView::Type(b)) => {
                assert(unified_type(a, b, metavariables, s).0);
                assert(same_type_kind(a, b));
            },
            (ExprView::Matrix(_, _, ae), ExprView::Matrix(_, _, be)) => {
                if unified_seq(ae, be, metavariables, s).0 {
                    assert(ae.len() == be.len());
                }
            },
            (ExprView::Finop(ao, xs), ExprView::Finop(bo, ys)) => {
                if ao == bo {
                    if ao == Finop::Forall || ao == Finop::Exists {
                        assert(unified_quantified(xs, ys, metavariables, s).0);
                        assert(xs.len() == ys.len());
                    } else {
                        assert(unified_seq(xs, ys, metavariables, s).0);
                        assert(xs.len() == ys.len());
                    }
                }
            },
            _ => {},
        }
    }
}

/// Whether the candidate `c` has the structure of the pattern `p`: at every
/// position the two nodes are the same kind of node with the same operator
/// and payload, except where the pattern has a metavariable that no binder
/// of the pattern shadows, which stands for any subtree. `bound` and
/// `accessible` are the pattern's bound and accessible variables there.
pub open spec fn fits(
    p: ExprView,
    c: ExprView,
    metavariables: Set<VariableView>,
    bound: Set<VariableView>,
    accessible: Set<VariableView>,
) -> bool
    decreases p, 0nat,
{
    if p matches ExprView::Variable(v) && metavariables.contains(v) && !bound.contains(v) {
        true
    } else {
        same_head(p, c) && match (p, c) {
            (ExprView::StandardBasis(a, _), ExprView::StandardBasis(b, _)) => fits(*a, *b, metavariables, bound, accessible),
            (ExprView::Type(a), ExprView::Type(b)) => type_fits(a, b, metavariables, bound, accessible),
            (ExprView::Matrix(_, _, a), ExprView::Matrix(_, _, b)) => all_fit(a, b, metavariables, bound, accessible),
            (ExprView::Monop(_, a), ExprView::Monop(_, b)) => fits(*a, *b, metavariables, bound, accessible),
            (ExprView::Binop(_, al, ar), ExprView::Binop(_, bl, br)) => fits(*al, *bl, metavariables, bound, accessible)
                && fits(*ar, *br, metavariables, bound, accessible),
            (ExprView::Triop(_, aa, ab, ac), ExprView::Triop(_, ba, bb, bc)) => fits(
                *aa,
                *ba,
                metavariables,
                bound,
                accessible,
            ) && fits(*ab, *bb, metavariables, bound, accessible) && fits(*ac, *bc, metavariables, bound, accessible),
            (ExprView::Finop(op, a), ExprView::Finop(_, b)) => if op == Finop::Forall || op == Finop::Exists {
                let binders = premise_binders(a, accessible);
                all_fit(a, b, metavariables, bound.union(binders), accessible.union(binders))
            } else {
                all_fit(a, b, metavariables, bound, accessible)
            },
            (ExprView::CmpChain(a, al), ExprView::CmpChain(b, bl)) => fits(*a, *b, metavariables, bound, accessible)
                && links_fit(al, bl, metavariables, bound, accessible),
            (ExprView::LogicChain(a, al), ExprView::LogicChain(b, bl)) => fits(*a, *b, metavariables, bound, accessible)
                && links_fit(al, bl, metavariables, bound, accessible),
            (ExprView::Seqop(_, i, af, at, ab), ExprView::Seqop(_, _, bf, bt, bb)) => fits(
                *af,
                *bf,
                metavariables,
                bound,
                accessible,
            ) && fits(*at, *bt, metavariables, bound, accessible) && fits(
                *ab,
                *bb,
                metavariables,
                bound.insert(i),
                accessible,
            ),
            _ => true,
        }
    }
}

/// `fits` for the dimension expressions of two types of the same kind.
pub open spec fn type_fits(
    a: TypeView,
    b: TypeView,
    metavariables: Set<VariableView>,
    bound: Set<VariableView>,
    accessible: Set<VariableView>,
) -> bool
    decreases a, 0nat,
{
    same_type_kind(a, b) && match (a, b) {
        (TypeView::Matrix(ar, ac), TypeView::Matrix(br, bc)) => fits(*ar, *br, metavariables, bound, accessible) && fits(
            *ac,
            *bc,
            metavariables,
            bound,
            accessible,
        ),
        (TypeView::Sequence(ar, ac), TypeView::Sequence(br, bc)) => fits(*ar, *br, metavariables, bound, accessible)
            && fits(*ac, *bc, metavariables, bound, accessible),
        _ => true,
    }
}

/// `fits` member by member for two lists of the same length.
pub open spec fn all_fit(
    a: Seq<ExprView>,
    b: Seq<ExprView>,
    metavariables: Set<VariableView>,
    bound: Set<VariableView>,
    accessible: Set<VariableView>,
) -> bool
    decreases a, 1nat,
{
    a.len() == b.len() && (a.len() == 0 || (all_fit(a.drop_last(), b.drop_last(), metavariables, bound, accessible)
        && fits(a.last(), b.last(), metavariables, bound, accessible)))
}

/// `fits` link by link, with the same operators, for two link lists.
pub open spec fn links_fit<O>(
    a: Seq<(O, ExprView)>,
    b: Seq<(O, ExprView)>,
    metavariables: Set<VariableView>,
    bound: Set<VariableView>,
    accessible: Set<VariableView>,
) -> bool
    decreases a, 1nat,
{
    a.len() == b.len() && (a.len() == 0 || (links_fit(a.drop_last(), b.drop_last(), metavariables, bound, accessible)
        && a.last().0 == b.last().0 && fits(a.last().1, b.last().1, metavariables, bound, accessible)))
}

/// A match only succeeds on a candidate with the pattern's structure: the
/// two agree node by node, operators and payloads included, down to the
/// pattern's unshadowed metavariables.
pub proof fn law_matches_have_the_pattern_structure(
    p: ExprView,
    c: ExprView,
    metavariables: Set<VariableView>,
    s: Unification,
)
    requires
        unified(p, c, metavariables, s).0,
    ensures
        fits(p, c, metavariables, s.pattern_bound, s.pattern_accessible),
    decreases p, 0nat,
{
    law_matches_agree_on_operators(p, c, metavariables, s);
    let m = metavariables;
    if metavariable(p, m, s) is None {
        match (p, c) {
            (ExprView::StandardBasis(ai, _), ExprView::StandardBasis(bi, _)) => {
                law_matches_have_the_pattern_structure(*ai, *bi, m, s);
            },
            (ExprView::Type(a), ExprView::Type(b)) => {
                lemma_type_match_fits(a, b, m, s);
            },
            (ExprView::Matrix(_, _, ae), ExprView::Matrix(_, _, be)) => {
                lemma_seq_match_fits(ae, be, m, s);
            },
            (ExprView::Monop(_, a), ExprView::Monop(_, b)) => {
                law_matches_have_the_pattern_structure(*a, *b, m, s);
            },
            (ExprView::Binop(_, al, ar), ExprView::Binop(_, bl, br)) => {
                let left = unified(*al, *bl, m, s);
                law_matches_have_the_pattern_structure(*al, *bl, m, s);
                lemma_unified_shape(*al, *bl, m, s);
                law_matches_have_the_pattern_structure(*ar, *br, m, left.1);
            },
            (ExprView::Triop(_, aa, ab, ac), ExprView::Triop(_, ba, bb, bc)) => {
                let first = unified(*aa, *ba, m, s);
                law_matches_have_the_pattern_structure(*aa, *ba, m, s);
                lemma_unified_shape(*aa, *ba, m, s);
                let second = unified(*ab, *bb, m, first.1);
                law_matches_have_the_pattern_structure(*ab, *bb, m, first.1);
                lemma_unified_shape(*ab, *bb, m, first.1);
                law_matches_have_the_pattern_structure(*ac, *bc, m, second.1);
            },
            (ExprView::Finop(op, a), ExprView::Finop(_, b)) => {
                if op == Finop::Forall || op == Finop::Exists {
                    let pattern_binders = premise_binders(a, s.pattern_accessible);
                    let candidate_binders = premise_binders(b, s.candidate_accessible);
                    let inner = Unification {
                        pattern_bound: s.pattern_bound.union(pattern_binders),
                        candidate_bound: s.candidate_bound.union(candidate_binders),
                        pattern_accessible: s.pattern_accessible.union(pattern_binders),
                        candidate_accessible: s.candidate_accessible.union(candidate_binders),
                        ..s
                    };
                    assert(unified_quantified(a, b, m, s).0);
                    assert(unified_seq(a, b, m, inner).0);
                    lemma_seq_match_fits(a, b, m, inner);
                } else {
                    lemma_seq_match_fits(a, b, m, s);
                }
            },
            (ExprView::CmpChain(a, al), ExprView::CmpChain(b, bl)) => {
                let start = unified(*a, *b, m, s);
                law_matches_have_the_pattern_structure(*a, *b, m, s);
                lemma_unified_shape(*a, *b, m, s);
                lemma_links_match_fits(al, bl, m, start.1);
            },
            (ExprView::LogicChain(a, al), ExprView::LogicChain(b, bl)) => {
                let start = unified(*a, *b, m, s);
                law_matches_have_the_pattern_structure(*a, *b, m, s);
                lemma_unified_shape(*a, *b, m, s);
                lemma_links_match_fits(al, bl, m, start.1);
            },
            (ExprView::Seqop(_, ai, af, at, ab), ExprView::Seqop(_, bi, bf, bt, bb)) => {
                let from = unified(*af, *bf, m, s);
                law_matches_have_the_pattern_structure(*af, *bf, m, s);
                lemma_unified_shape(*af, *bf, m, s);
                let to = unified(*at, *bt, m, from.1);
                law_matches_have_the_pattern_structure(*at, *bt, m, from.1);
                lemma_unified_shape(*at, *bt, m, from.1);
                let inner = Unification {
                    pattern_bound: to.1.pattern_bound.insert(ai),
                    candidate_bound: to.1.candidate_bound.insert(bi),
                    ..to.1
                };
                assert(unified_body(ai, bi, *ab, *bb, m, to.1).0);
                assert(unified(*ab, *bb, m, inner).0);
                law_matches_have_the_pattern_structure(*ab, *bb, m, inner);
            },
            _ => {},
        }
    }
}

proof fn lemma_type_match_fits(a: TypeView, b: TypeView, m: Set<VariableView>, s: Unification)
    requires
        unified_type(a, b, m, s).0,
    ensures
        type_fits(a, b, m, s.pattern_bound, s.pattern_accessible),
    decreases a, 0nat,
{
    match (a, b) {
        (TypeView::Matrix(ar, ac), TypeView::Matrix(br, bc)) => {
            let first = unified(*ar, *br, m, s);
            law_matches_have_the_pattern_structure(*ar, *br, m, s);
            lemma_unified_shape(*ar, *br, m, s);
            law_matches_have_the_pattern_structure(*ac, *bc, m, first.1);
        },
        (TypeView::Sequence(ar, ac), TypeView::Sequence(br, bc)) => {
            let first = unified(*ar, *br, m, s);
            law_matches_have_the_pattern_structure(*ar, *br, m, s);
            lemma_unified_shape(*ar, *br, m, s);
            law_matches_have_the_pattern_structure(*ac, *bc, m, first.1);
        },
        _ => {},
    }
}

proof fn lemma_seq_match_fits(a: Seq<ExprView>, b: Seq<ExprView>, m: Set<VariableView>, s: Unification)
    requires
        unified_seq(a, b, m, s).0,
    ensures
        all_fit(a, b, m, s.pattern_bound, s.pattern_accessible),
    decreases a, 1nat,
{
    if a.len() > 0 {
        let prior = unified_seq(a.drop_last(), b.drop_last(), m, s);
        lemma_seq_match_fits(a.drop_last(), b.drop_last(), m, s);
        lemma_unified_seq_shape(a.drop_last(), b.drop_last(), m, s);
        law_matches_have_the_pattern_structure(a.last(), b.last(), m, prior.1);
    }
}

proof fn lemma_links_match_fits<O>(a: Seq<(O, ExprView)>, b: Seq<(O, ExprView)>, m: Set<VariableView>, s: Unification)
    requires
        unified_links(a, b, m, s).0,
    ensures
        links_fit(a, b, m, s.pattern_bound, s.pattern_accessible),
    decreases a, 1nat,
{
    if a.len() > 0 {
        let prior = unified_links(a.drop_last(), b.drop_last(), m, s);
        lemma_links_match_fits(a.drop_last(), b.drop_last(), m, s);
        lemma_unified_links_shape(a.drop_last(), b.drop_last(), m, s);
        law_matches_have_the_pattern_structure(a.last().1, b.last().1, m, prior.1);
    }
}

/// The metavariable a pattern node is, unless a binder of the pattern
/// shadows it.
pub open spec fn unshadowed_metavariable(p: ExprView, metavariables: Set<VariableView>, bound: Set<VariableView>) -> Option<
    VariableView,
> {
    match p {
        ExprView::Variable(v) => if metavariables.contains(v) && !bound.contains(v) {
            Some(v)
        } else {
            None
        },
        _ => None,
    }
}

/// Whether the candidate `c` is the pattern `p` with the metavariables
/// replaced by what `assignments` gives them: like `fits`, at every
/// position the two nodes are the same kind of node with the same operator
/// and payload, except where the pattern has a metavariable that no binder
/// of the pattern shadows, which stands for any subtree. `bound` and
/// `accessible` are the pattern's bound and accessible variables there.
pub open spec fn instantiates(
    p: ExprView,
    c: ExprView,
    assignments: Map<VariableView, ExprView>,
    metavariables: Set<VariableView>,
    bound: Set<VariableView>,
    accessible: Set<VariableView>,
) -> bool
    decreases p, 0nat,
{
    if let Some(v) = unshadowed_metavariable(p, metavariables, bound) {
        assignments.contains_key(v) && assignments[v] == c
    } else {
        same_head(p, c) && match (p, c) {
            (ExprView::StandardBasis(a, _), ExprView::StandardBasis(b, _)) => instantiates(*a, *b, assignments, metavariables, bound, accessible),
            (ExprView::Type(a), ExprView::Type(b)) => type_instantiates(a, b, assignments, metavariables, bound, accessible),
            (ExprView::Matrix(_, _, a), ExprView::Matrix(_, _, b)) => all_instantiate(a, b, assignments, metavariables, bound, accessible),
            (ExprView::Monop(_, a), ExprView::Monop(_, b)) => instantiates(*a, *b, assignments, metavariables, bound, accessible),
            (ExprView::Binop(_, al, ar), ExprView::Binop(_, bl, br)) => instantiates(*al, *bl, assignments, metavariables, bound, accessible)
                && instantiates(*ar, *br, assignments, metavariables, bound, accessible),
            (ExprView::Triop(_, aa, ab, ac), ExprView::Triop(_, ba, bb, bc)) => instantiates(
                *aa,
                *ba,
                assignments,
                metavariables,
                bound,
                accessible,
            ) && instantiates(*ab, *bb, assignments, metavariables, bound, accessible) && instantiates(*ac, *bc, assignments, metavariables, bound, accessible),
            (ExprView::Finop(op, a), ExprView::Finop(_, b)) => if op == Finop::Forall || op == Finop::Exists {
                let binders = premise_binders(a, accessible);
                all_instantiate(a, b, assignments, metavariables, bound.union(binders), accessible.union(binders))
            } else {
                all_instantiate(a, b, assignments, metavariables, bound, accessible)
            },
            (ExprView::CmpChain(a, al), ExprView::CmpChain(b, bl)) => instantiates(*a, *b, assignments, metavariables, bound, accessible)
                && links_instantiate(al, bl, assignments, metavariables, bound, accessible),
            (ExprView::LogicChain(a, al), ExprView::LogicChain(b, bl)) => instantiates(*a, *b, assignments, metavariables, bound, accessible)
                && links_instantiate(al, bl, assignments, metavariables, bound, accessible),
            (ExprView::Seqop(_, i, af, at, ab), ExprView::Seqop(_, _, bf, bt, bb)) => instantiates(
                *af,
                *bf,
                assignments,
                metavariables,
                bound,
                accessible,
            ) && instantiates(*at, *bt, assignments, metavariables, bound, accessible) && instantiates(
                *ab,
                *bb,
                assignments,
                metavariables,
                bound.insert(i),
                accessible,
            ),
            _ => true,
        }
    }
}

/// `fits` for the dimension expressions of two types of the same kind.
pub open spec fn type_instantiates(
    a: TypeView,
    b: TypeView,
    assignments: Map<VariableView, ExprView>,
    metavariables: Set<VariableView>,
    bound: Set<VariableView>,
    accessible: Set<VariableView>,
) -> bool
    decreases a, 0nat,
{
    same_type_kind(a, b) && match (a, b) {
        (TypeView::Matrix(ar, ac), TypeView::Matrix(br, bc)) => instantiates(*ar, *br, assignments, metavariables, bound, accessible) && instantiates(
            *ac,
            *bc,
            assignments,
            metavariables,
            bound,
            accessible,
        ),
        (TypeView::Sequence(ar, ac), TypeView::Sequence(br, bc)) => instantiates(*ar, *br, assignments, metavariables, bound, accessible)
            && instantiates(*ac, *bc, assignments, metavariables, bound, accessible),
        _ => true,
    }
}

/// `fits` member by member for two lists of the same length.
pub open spec fn all_instantiate(
    a: Seq<ExprView>,
    b: Seq<ExprView>,
    assignments: Map<VariableView, ExprView>,
    metavariables: Set<VariableView>,
    bound: Set<VariableView>,
    accessible: Set<VariableView>,
) -> bool
    decreases a, 1nat,
{
    a.len() == b.len() && (a.len() == 0 || (all_instantiate(a.drop_last(), b.drop_last(), assignments, metavariables, bound, accessible)
        && instantiates(a.last(), b.last(), assignments, metavariables, bound, accessible)))
}

/// `fits` link by link, with the same operators, for two link lists.
pub open spec fn links_instantiate<O>(
    a: Seq<(O, ExprView)>,
    b: Seq<(O, ExprView)>,
    assignments: Map<VariableView, ExprView>,
    metavariables: Set<VariableView>,
    bound: Set<VariableView>,
    accessible: Set<VariableView>,
) -> bool
    decreases a, 1nat,
{
    a.len() == b.len() && (a.len() == 0 || (links_instantiate(a.drop_last(), b.drop_last(), assignments, metavariables, bound, accessible)
        && a.last().0 == b.last().0 && instantiates(a.last().1, b.last().1, assignments, metavariables, bound, accessible)))
}


/// Whether `later` keeps every assignment of `earlier`.
pub open spec fn extends(later: Map<VariableView, ExprView>, earlier: Map<VariableView, ExprView>) -> bool {
    forall|k: VariableView| #[trigger] earlier.contains_key(k) ==> later.contains_key(k) && later[k] == earlier[k]
}

/// Keeping assignments is transitive.
proof fn lemma_extends_trans(
    first: Map<VariableView, ExprView>,
    second: Map<VariableView, ExprView>,
    third: Map<VariableView, ExprView>,
)
    requires
        extends(second, first),
        extends(third, second),
    ensures
        extends(third, first),
{
    assert forall|k: VariableView| #[trigger] first.contains_key(k) implies third.contains_key(k) && third[k]
        == first[k] by {
        assert(second.contains_key(k));
    }
}

/// A match only adds assignments.
proof fn lemma_unified_grows(p: ExprView, c: ExprView, m: Set<VariableView>, s: Unification)
    ensures
        extends(unified(p, c, m, s).1.assignments, s.assignments),
    decreases p, 0nat,
{
    if !s.stuck && metavariable(p, m, s) is Some {
        let v = metavariable(p, m, s)->0;
        let after = unified(p, c, m, s).1.assignments;
        assert forall|k: VariableView| #[trigger] s.assignments.contains_key(k) implies after.contains_key(k)
            && after[k] == s.assignments[k] by {
            if !s.assignments.contains_key(v) && k != v {
                assert(after == s.assignments.insert(v, c) || after == s.assignments);
            }
        }
    }
    if !s.stuck && metavariable(p, m, s) is None {
        match (p, c) {
            (ExprView::StandardBasis(ai, _), ExprView::StandardBasis(bi, _)) => lemma_unified_grows(*ai, *bi, m, s),
            (ExprView::Type(a), ExprView::Type(b)) => lemma_unified_type_grows(a, b, m, s),
            (ExprView::Matrix(_, _, ae), ExprView::Matrix(_, _, be)) => lemma_unified_seq_grows(ae, be, m, s),
            (ExprView::Monop(_, a), ExprView::Monop(_, b)) => lemma_unified_grows(*a, *b, m, s),
            (ExprView::Binop(_, al, ar), ExprView::Binop(_, bl, br)) => {
                let left = unified(*al, *bl, m, s);
                lemma_unified_grows(*al, *bl, m, s);
                lemma_unified_grows(*ar, *br, m, left.1);
                lemma_extends_trans(s.assignments, left.1.assignments, unified(*ar, *br, m, left.1).1.assignments);
            },
            (ExprView::Triop(_, aa, ab, ac), ExprView::Triop(_, ba, bb, bc)) => {
                let first = unified(*aa, *ba, m, s);
                lemma_unified_grows(*aa, *ba, m, s);
                lemma_unified_grows(*ab, *bb, m, first.1);
                let second = unified(*ab, *bb, m, first.1);
                lemma_unified_grows(*ac, *bc, m, second.1);
                lemma_extends_trans(s.assignments, first.1.assignments, second.1.assignments);
                lemma_extends_trans(s.assignments, second.1.assignments, unified(*ac, *bc, m, second.1).1.assignments);
            },
            (ExprView::Finop(_, a), ExprView::Finop(_, b)) => {
                lemma_unified_seq_grows(a, b, m, s);
                lemma_unified_quantified_grows(a, b, m, s);
            },
            (ExprView::CmpChain(astart, alinks), ExprView::CmpChain(bstart, blinks)) => {
                let start = unified(*astart, *bstart, m, s);
                lemma_unified_grows(*astart, *bstart, m, s);
                lemma_unified_links_grows(alinks, blinks, m, start.1);
                lemma_extends_trans(s.assignments, start.1.assignments, unified_links(alinks, blinks, m, start.1).1.assignments);
            },
            (ExprView::LogicChain(astart, alinks), ExprView::LogicChain(bstart, blinks)) => {
                let start = unified(*astart, *bstart, m, s);
                lemma_unified_grows(*astart, *bstart, m, s);
                lemma_unified_links_grows(alinks, blinks, m, start.1);
                lemma_extends_trans(s.assignments, start.1.assignments, unified_links(alinks, blinks, m, start.1).1.assignments);
            },
            (ExprView::Seqop(_, ai, af, at, ab), ExprView::Seqop(_, bi, bf, bt, bb)) => {
                let from = unified(*af, *bf, m, s);
                lemma_unified_grows(*af, *bf, m, s);
                lemma_unified_grows(*at, *bt, m, from.1);
                let to = unified(*at, *bt, m, from.1);
                if !to.1.stuck {
                    let inner = Unification {
                        pattern_bound: to.1.pattern_bound.insert(ai),
                        candidate_bound: to.1.candidate_bound.insert(bi),
                        ..to.1
                    };
                    lemma_unified_grows(*ab, *bb, m, inner);
                    lemma_extends_trans(to.1.assignments, inner.assignments, unified(*ab, *bb, m, inner).1.assignments);
                }
                lemma_extends_trans(s.assignments, from.1.assignments, to.1.assignments);
                lemma_extends_trans(
                    s.assignments,
                    to.1.assignments,
                    unified_body(ai, bi, *ab, *bb, m, to.1).1.assignments,
                );
            },
            _ => {},
        }
    }
}

proof fn lemma_unified_type_grows(a: TypeView, b: TypeView, m: Set<VariableView>, s: Unification)
    ensures
        extends(unified_type(a, b, m, s).1.assignments, s.assignments),
    decreases a, 0nat,
{
    if !s.stuck {
        match (a, b) {
            (TypeView::Matrix(ar, ac), TypeView::Matrix(br, bc)) => {
                let first = unified(*ar, *br, m, s);
                lemma_unified_grows(*ar, *br, m, s);
                lemma_unified_grows(*ac, *bc, m, first.1);
                lemma_extends_trans(s.assignments, first.1.assignments, unified(*ac, *bc, m, first.1).1.assignments);
            },
            (TypeView::Sequence(ar, ac), TypeView::Sequence(br, bc)) => {
                let first = unified(*ar, *br, m, s);
                lemma_unified_grows(*ar, *br, m, s);
                lemma_unified_grows(*ac, *bc, m, first.1);
                lemma_extends_trans(s.assignments, first.1.assignments, unified(*ac, *bc, m, first.1).1.assignments);
            },
            _ => {},
        }
    }
}

proof fn lemma_unified_seq_grows(a: Seq<ExprView>, b: Seq<ExprView>, m: Set<VariableView>, s: Unification)
    ensures
        extends(unified_seq(a, b, m, s).1.assignments, s.assignments),
    decreases a, 1nat,
{
    if !s.stuck && a.len() == b.len() && a.len() > 0 {
        let prior = unified_seq(a.drop_last(), b.drop_last(), m, s);
        lemma_unified_seq_grows(a.drop_last(), b.drop_last(), m, s);
        lemma_unified_grows(a.last(), b.last(), m, prior.1);
        lemma_extends_trans(s.assignments, prior.1.assignments, unified(a.last(), b.last(), m, prior.1).1.assignments);
    }
}

proof fn lemma_unified_links_grows<O>(a: Seq<(O, ExprView)>, b: Seq<(O, ExprView)>, m: Set<VariableView>, s: Unification)
    ensures
        extends(unified_links(a, b, m, s).1.assignments, s.assignments),
    decreases a, 1nat,
{
    if !s.stuck && a.len() == b.len() && a.len() > 0 {
        let prior = unified_links(a.drop_last(), b.drop_last(), m, s);
        lemma_unified_links_grows(a.drop_last(), b.drop_last(), m, s);
        lemma_unified_grows(a.last().1, b.last().1, m, prior.1);
        lemma_extends_trans(s.assignments, prior.1.assignments, unified(a.last().1, b.last().1, m, prior.1).1.assignments);
    }
}

proof fn lemma_unified_quantified_grows(a: Seq<ExprView>, b: Seq<ExprView>, m: Set<VariableView>, s: Unification)
    ensures
        extends(unified_quantified(a, b, m, s).1.assignments, s.assignments),
    decreases a, 2nat,
{
    if !s.stuck && a.len() == b.len() && !premises_stuck(a) && !premises_stuck(b) {
        let pattern_binders = premise_binders(a, s.pattern_accessible);
        let candidate_binders = premise_binders(b, s.candidate_accessible);
        let inner = Unification {
            pattern_bound: s.pattern_bound.union(pattern_binders),
            candidate_bound: s.candidate_bound.union(candidate_binders),
            pattern_accessible: s.pattern_accessible.union(pattern_binders),
            candidate_accessible: s.candidate_accessible.union(candidate_binders),
            ..s
        };
        lemma_unified_seq_grows(a, b, m, inner);
    }
}

/// An instantiation stays one when assignments are added.
proof fn lemma_instantiates_grows(
    p: ExprView,
    c: ExprView,
    earlier: Map<VariableView, ExprView>,
    later: Map<VariableView, ExprView>,
    m: Set<VariableView>,
    bound: Set<VariableView>,
    accessible: Set<VariableView>,
)
    requires
        instantiates(p, c, earlier, m, bound, accessible),
        extends(later, earlier),
    ensures
        instantiates(p, c, later, m, bound, accessible),
    decreases p, 0nat,
{
    if let Some(v) = unshadowed_metavariable(p, m, bound) {
        assert(earlier.contains_key(v));
    } else {
        match (p, c) {
            (ExprView::StandardBasis(a, _), ExprView::StandardBasis(b, _)) => lemma_instantiates_grows(
                *a,
                *b,
                earlier,
                later,
                m,
                bound,
                accessible,
            ),
            (ExprView::Type(a), ExprView::Type(b)) => lemma_type_instantiates_grows(a, b, earlier, later, m, bound, accessible),
            (ExprView::Matrix(_, _, a), ExprView::Matrix(_, _, b)) => lemma_all_instantiate_grows(
                a,
                b,
                earlier,
                later,
                m,
                bound,
                accessible,
            ),
            (ExprView::Monop(_, a), ExprView::Monop(_, b)) => lemma_instantiates_grows(*a, *b, earlier, later, m, bound, accessible),
            (ExprView::Binop(_, al, ar), ExprView::Binop(_, bl, br)) => {
                lemma_instantiates_grows(*al, *bl, earlier, later, m, bound, accessible);
                lemma_instantiates_grows(*ar, *br, earlier, later, m, bound, accessible);
            },
            (ExprView::Triop(_, aa, ab, ac), ExprView::Triop(_, ba, bb, bc)) => {
                lemma_instantiates_grows(*aa, *ba, earlier, later, m, bound, accessible);
                lemma_instantiates_grows(*ab, *bb, earlier, later, m, bound, accessible);
                lemma_instantiates_grows(*ac, *bc, earlier, later, m, bound, accessible);
            },
            (ExprView::Finop(op, a), ExprView::Finop(_, b)) => if op == Finop::Forall || op == Finop::Exists {
                let binders = premise_binders(a, accessible);
                lemma_all_instantiate_grows(a, b, earlier, later, m, bound.union(binders), accessible.union(binders));
            } else {
                lemma_all_instantiate_grows(a, b, earlier, later, m, bound, accessible);
            },
            (ExprView::CmpChain(a, al), ExprView::CmpChain(b, bl)) => {
                lemma_instantiates_grows(*a, *b, earlier, later, m, bound, accessible);
                lemma_links_instantiate_grows(al, bl, earlier, later, m, bound, accessible);
            },
            (ExprView::LogicChain(a, al), ExprView::LogicChain(b, bl)) => {
                lemma_instantiates_grows(*a, *b, earlier, later, m, bound, accessible);
                lemma_links_instantiate_grows(al, bl, earlier, later, m, bound, accessible);
            },
            (ExprView::Seqop(_, i, af, at, ab), ExprView::Seqop(_, _, bf, bt, bb)) => {
                lemma_instantiates_grows(*af, *bf, earlier, later, m, bound, accessible);
                lemma_instantiates_grows(*at, *bt, earlier, later, m, bound, accessible);
                lemma_instantiates_grows(*ab, *bb, earlier, later, m, bound.insert(i), accessible);
            },
            _ => {},
        }
    }
}

proof fn lemma_type_instantiates_grows(
    a: TypeView,
    b: TypeView,
    earlier: Map<VariableView, ExprView>,
    later: Map<VariableView, ExprView>,
    m: Set<VariableView>,
    bound: Set<VariableView>,
    accessible: Set<VariableView>,
)
    requires
        type_instantiates(a, b, earlier, m, bound, accessible),
        extends(later, earlier),
    ensures
        type_instantiates(a, b, later, m, bound, accessible),
    decreases a, 0nat,
{
    match (a, b) {
        (TypeView::Matrix(ar, ac), TypeView::Matrix(br, bc)) => {
            lemma_instantiates_grows(*ar, *br, earlier, later, m, bound, accessible);
            lemma_instantiates_grows(*ac, *bc, earlier, later, m, bound, accessible);
        },
        (TypeView::Sequence(ar, ac), TypeView::Sequence(br, bc)) => {
            lemma_instantiates_grows(*ar, *br, earlier, later, m, bound, accessible);
            lemma_instantiates_grows(*ac, *bc, earlier, later, m, bound, accessible);
        },
        _ => {},
    }
}

proof fn lemma_all_instantiate_grows(
    a: Seq<ExprView>,
    b: Seq<ExprView>,
    earlier: Map<VariableView, ExprView>,
    later: Map<VariableView, ExprView>,
    m: Set<VariableView>,
    bound: Set<VariableView>,
    accessible: Set<VariableView>,
)
    requires
        all_instantiate(a, b, earlier, m, bound, accessible),
        extends(later, earlier),
    ensures
        all_instantiate(a, b, later, m, bound, accessible),
    decreases a, 1nat,
{
    if a.len() > 0 {
        lemma_all_instantiate_grows(a.drop_last(), b.drop_last(), earlier, later, m, bound, accessible);
        lemma_instantiates_grows(a.last(), b.last(), earlier, later, m, bound, accessible);
    }
}

proof fn lemma_links_instantiate_grows<O>(
    a: Seq<(O, ExprView)>,
    b: Seq<(O, ExprView)>,
    earlier: Map<VariableView, ExprView>,
    later: Map<VariableView, ExprView>,
    m: Set<VariableView>,
    bound: Set<VariableView>,
    accessible: Set<VariableView>,
)
    requires
        links_instantiate(a, b, earlier, m, bound, accessible),
        extends(later, earlier),
    ensures
        links_instantiate(a, b, later, m, bound, accessible),
    decreases a, 1nat,
{
    if a.len() > 0 {
        lemma_links_instantiate_grows(a.drop_last(), b.drop_last(), earlier, later, m, bound, accessible);
        lemma_instantiates_grows(a.last().1, b.last().1, earlier, later, m, bound, accessible);
    }
}


/// A successful match finds the assignments that make the pattern the
/// candidate: with each unshadowed metavariable replaced by what it is
/// assigned, the pattern is the candidate node for node, operators, payloads
/// and link operators included.
pub proof fn law_match_instantiates_the_pattern(p: ExprView, c: ExprView, metavariables: Set<VariableView>, s: Unification)
    requires
        unified(p, c, metavariables, s).0,
    ensures
        instantiates(p, c, unified(p, c, metavariables, s).1.assignments, metavariables, s.pattern_bound, s.pattern_accessible),
    decreases p, 0nat,
{
    law_matches_agree_on_operators(p, c, metavariables, s);
    let m = metavariables;
    let fin = unified(p, c, m, s).1.assignments;
    if metavariable(p, m, s) is None {
        match (p, c) {
            (ExprView::StandardBasis(ai, _), ExprView::StandardBasis(bi, _)) => {
                law_match_instantiates_the_pattern(*ai, *bi, m, s);
            },
            (ExprView::Type(a), ExprView::Type(b)) => {
                lemma_type_match_instantiates(a, b, m, s);
            },
            (ExprView::Matrix(_, _, ae), ExprView::Matrix(_, _, be)) => {
                lemma_seq_match_instantiates(ae, be, m, s);
            },
            (ExprView::Monop(_, a), ExprView::Monop(_, b)) => {
                law_match_instantiates_the_pattern(*a, *b, m, s);
            },
            (ExprView::Binop(_, al, ar), ExprView::Binop(_, bl, br)) => {
                let left = unified(*al, *bl, m, s);
                law_match_instantiates_the_pattern(*al, *bl, m, s);
                lemma_unified_shape(*al, *bl, m, s);
                law_match_instantiates_the_pattern(*ar, *br, m, left.1);
                lemma_unified_grows(*ar, *br, m, left.1);
                lemma_instantiates_grows(*al, *bl, left.1.assignments, fin, m, s.pattern_bound, s.pattern_accessible);
            },
            (ExprView::Triop(_, aa, ab, ac), ExprView::Triop(_, ba, bb, bc)) => {
                let first = unified(*aa, *ba, m, s);
                law_match_instantiates_the_pattern(*aa, *ba, m, s);
                lemma_unified_shape(*aa, *ba, m, s);
                let second = unified(*ab, *bb, m, first.1);
                law_match_instantiates_the_pattern(*ab, *bb, m, first.1);
                lemma_unified_shape(*ab, *bb, m, first.1);
                law_match_instantiates_the_pattern(*ac, *bc, m, second.1);
                lemma_unified_grows(*ab, *bb, m, first.1);
                lemma_unified_grows(*ac, *bc, m, second.1);
                lemma_extends_trans(first.1.assignments, second.1.assignments, fin);
                lemma_instantiates_grows(*aa, *ba, first.1.assignments, fin, m, s.pattern_bound, s.pattern_accessible);
                lemma_instantiates_grows(*ab, *bb, second.1.assignments, fin, m, s.pattern_bound, s.pattern_accessible);
            },
            (ExprView::Finop(op, a), ExprView::Finop(_, b)) => {
                if op == Finop::Forall || op == Finop::Exists {
                    let pattern_binders = premise_binders(a, s.pattern_accessible);
                    let candidate_binders = premise_binders(b, s.candidate_accessible);
                    let inner = Unification {
                        pattern_bound: s.pattern_bound.union(pattern_binders),
                        candidate_bound: s.candidate_bound.union(candidate_binders),
                        pattern_accessible: s.pattern_accessible.union(pattern_binders),
                        candidate_accessible: s.candidate_accessible.union(candidate_binders),
                        ..s
                    };
                    assert(unified_quantified(a, b, m, s).0);
                    assert(unified_seq(a, b, m, inner).0);
                    lemma_seq_match_instantiates(a, b, m, inner);
                } else {
                    lemma_seq_match_instantiates(a, b, m, s);
                }
            },
            (ExprView::CmpChain(a, al), ExprView::CmpChain(b, bl)) => {
                let start = unified(*a, *b, m, s);
                law_match_instantiates_the_pattern(*a, *b, m, s);
                lemma_unified_shape(*a, *b, m, s);
                lemma_links_match_instantiates(al, bl, m, start.1);
                lemma_unified_links_grows(al, bl, m, start.1);
                lemma_instantiates_grows(*a, *b, start.1.assignments, fin, m, s.pattern_bound, s.pattern_accessible);
            },
            (ExprView::LogicChain(a, al), ExprView::LogicChain(b, bl)) => {
                let start = unified(*a, *b, m, s);
                law_match_instantiates_the_pattern(*a, *b, m, s);
                lemma_unified_shape(*a, *b, m, s);
                lemma_links_match_instantiates(al, bl, m, start.1);
                lemma_unified_links_grows(al, bl, m, start.1);
                lemma_instantiates_grows(*a, *b, start.1.assignments, fin, m, s.pattern_bound, s.pattern_accessible);
            },
            (ExprView::Seqop(_, ai, af, at, ab), ExprView::Seqop(_, bi, bf, bt, bb)) => {
                let from = unified(*af, *bf, m, s);
                law_match_instantiates_the_pattern(*af, *bf, m, s);
                lemma_unified_shape(*af, *bf, m, s);
                let to = unified(*at, *bt, m, from.1);
                law_match_instantiates_the_pattern(*at, *bt, m, from.1);
                lemma_unified_shape(*at, *bt, m, from.1);
                let inner = Unification {
                    pattern_bound: to.1.pattern_bound.insert(ai),
                    candidate_bound: to.1.candidate_bound.insert(bi),
                    ..to.1
                };
                assert(unified_body(ai, bi, *ab, *bb, m, to.1).0);
                assert(unified(*ab, *bb, m, inner).0);
                law_match_instantiates_the_pattern(*ab, *bb, m, inner);
                lemma_unified_grows(*at, *bt, m, from.1);
                lemma_unified_grows(*ab, *bb, m, inner);
                assert(fin == unified(*ab, *bb, m, inner).1.assignments);
                lemma_extends_trans(from.1.assignments, to.1.assignments, fin);
                lemma_instantiates_grows(*af, *bf, from.1.assignments, fin, m, s.pattern_bound, s.pattern_accessible);
                lemma_instantiates_grows(*at, *bt, to.1.assignments, fin, m, s.pattern_bound, s.pattern_accessible);
            },
            _ => {},
        }
    }
}

proof fn lemma_type_match_instantiates(a: TypeView, b: TypeView, m: Set<VariableView>, s: Unification)
    requires
        unified_type(a, b, m, s).0,
    ensures
        type_instantiates(a, b, unified_type(a, b, m, s).1.assignments, m, s.pattern_bound, s.pattern_accessible),
    decreases a, 0nat,
{
    let fin = unified_type(a, b, m, s).1.assignments;
    match (a, b) {
        (TypeView::Matrix(ar, ac), TypeView::Matrix(br, bc)) => {
            let first = unified(*ar, *br, m, s);
            law_match_instantiates_the_pattern(*ar, *br, m, s);
            lemma_unified_shape(*ar, *br, m, s);
            law_match_instantiates_the_pattern(*ac, *bc, m, first.1);
            lemma_unified_grows(*ac, *bc, m, first.1);
            lemma_instantiates_grows(*ar, *br, first.1.assignments, fin, m, s.pattern_bound, s.pattern_accessible);
        },
        (TypeView::Sequence(ar, ac), TypeView::Sequence(br, bc)) => {
            let first = unified(*ar, *br, m, s);
            law_match_instantiates_the_pattern(*ar, *br, m, s);
            lemma_unified_shape(*ar, *br, m, s);
            law_match_instantiates_the_pattern(*ac, *bc, m, first.1);
            lemma_unified_grows(*ac, *bc, m, first.1);
            lemma_instantiates_grows(*ar, *br, first.1.assignments, fin, m, s.pattern_bound, s.pattern_accessible);
        },
        _ => {},
    }
}

proof fn lemma_seq_match_instantiates(a: Seq<ExprView>, b: Seq<ExprView>, m: Set<VariableView>, s: Unification)
    requires
        unified_seq(a, b, m, s).0,
    ensures
        all_instantiate(a, b, unified_seq(a, b, m, s).1.assignments, m, s.pattern_bound, s.pattern_accessible),
    decreases a, 1nat,
{
    if a.len() > 0 {
        let prior = unified_seq(a.drop_last(), b.drop_last(), m, s);
        lemma_seq_match_instantiates(a.drop_last(), b.drop_last(), m, s);
        lemma_unified_seq_shape(a.drop_last(), b.drop_last(), m, s);
        law_match_instantiates_the_pattern(a.last(), b.last(), m, prior.1);
        lemma_unified_grows(a.last(), b.last(), m, prior.1);
        lemma_all_instantiate_grows(
            a.drop_last(),
            b.drop_last(),
            prior.1.assignments,
            unified_seq(a, b, m, s).1.assignments,
            m,
            s.pattern_bound,
            s.pattern_accessible,
        );
    }
}

proof fn lemma_links_match_instantiates<O>(a: Seq<(O, ExprView)>, b: Seq<(O, ExprView)>, m: Set<VariableView>, s: Unification)
    requires
        unified_links(a, b, m, s).0,
    ensures
        links_instantiate(a, b, unified_links(a, b, m, s).1.assignments, m, s.pattern_bound, s.pattern_accessible),
    decreases a, 1nat,
{
    if a.len() > 0 {
        let prior = unified_links(a.drop_last(), b.drop_last(), m, s);
        lemma_links_match_instantiates(a.drop_last(), b.drop_last(), m, s);
        lemma_unified_links_shape(a.drop_last(), b.drop_last(), m, s);
        law_match_instantiates_the_pattern(a.last().1, b.last().1, m, prior.1);
        lemma_unified_grows(a.last().1, b.last().1, m, prior.1);
        lemma_links_instantiate_grows(
            a.drop_last(),
            b.drop_last(),
            prior.1.assignments,
            unified_links(a, b, m, s).1.assignments,
            m,
            s.pattern_bound,
            s.pattern_accessible,
        );
    }
}

} // verus!
