//! Facts about the shape parameters of an expression: which implicit
//! dimensions it depends on and which variables it leaves free.
use vstd::prelude::*;

use crate::expression_utils::{distinct_variables, insert_variable, lemma_variable_set, variable_set};
use crate::type_resolver::{first_declaration, SymbolicTypeEnvironment, TypeLookup};
use crate::view::{
    comparison_views, lemma_comparison_views, lemma_logic_views, lemma_views, logic_views, type_view, views,
    ExprView, TypeView, VariableView,
};
use crate::{variable_name, Cmp, CmpChain, Expr, Finop, Logic, LogicChain, Matrix, RawExpr, TypeExpr, Variable};

verus! {

/// Why no environment can be built for a set of assumptions.
#[derive(Clone, Debug, PartialEq, Eq)]
pub enum ShapeError {
    Unsat(String),
    Unsupported(String),
    InvalidTyping(String),
    Unknown(String),
}

/// Whether the tree holds a context-dependent matrix constant or an implicit dimension.
pub open spec fn mentions_implicit(e: ExprView) -> bool
    decreases e, 0nat,
{
    match e {
        ExprView::ImplicitDimension(_) | ExprView::IdentityMatrix(_) | ExprView::StandardBasis(_, _) | ExprView::ZeroMatrix(_, _) => true,
        ExprView::Type(t) => mentions_implicit_type(t),
        ExprView::Matrix(rows, cols, elements) => mentions_implicit_seq(elements),
        ExprView::Monop(op, x) => mentions_implicit(*x),
        ExprView::Binop(op, x, y) => mentions_implicit(*x) || mentions_implicit(*y),
        ExprView::Triop(op, x, y, z) => mentions_implicit(*x) || mentions_implicit(*y) || mentions_implicit(*z),
        ExprView::Finop(op, operands) => mentions_implicit_seq(operands),
        ExprView::CmpChain(start, links) => mentions_implicit(*start) || mentions_implicit_links(links),
        ExprView::LogicChain(start, links) => mentions_implicit(*start) || mentions_implicit_links(links),
        ExprView::Seqop(op, bv, from, to, body) => mentions_implicit(*from) || mentions_implicit(*to) || mentions_implicit(*body),
        ExprView::SetComprehension(bv, domain, predicate) => mentions_implicit_type(domain) || mentions_implicit(*predicate),
        _ => false,
    }
}

/// `mentions_implicit` over the dimension expressions of a type.
pub open spec fn mentions_implicit_type(t: TypeView) -> bool
    decreases t, 0nat,
{
    match t {
        TypeView::Matrix(x, y) => mentions_implicit(*x) || mentions_implicit(*y),
        TypeView::Sequence(x, y) => mentions_implicit(*x) || mentions_implicit(*y),
        TypeView::SetOf(inner) => mentions_implicit_type(*inner),
        _ => false,
    }
}

/// `mentions_implicit` over a list of trees.
pub open spec fn mentions_implicit_seq(s: Seq<ExprView>) -> bool
    decreases s, 1nat,
{
    if s.len() == 0 {
        false
    } else {
        mentions_implicit_seq(s.drop_last()) || mentions_implicit(s.last())
    }
}

/// `mentions_implicit` over the trees of a list of links.
pub open spec fn mentions_implicit_links<O>(s: Seq<(O, ExprView)>) -> bool
    decreases s, 1nat,
{
    if s.len() == 0 {
        false
    } else {
        mentions_implicit_links(s.drop_last()) || mentions_implicit(s.last().1)
    }
}

/// Whether the tree holds a context-dependent matrix constant or an implicit dimension.
#[verifier::spinoff_prover]
pub fn implicit_in<Metadata>(expression: &Expr<Metadata>) -> (found: bool)
    ensures
        found == mentions_implicit(expression@),
    decreases *expression, 0nat,
{
    match expression.raw() {
        RawExpr::ImplicitDimension(_) | RawExpr::IdentityMatrix { .. } | RawExpr::StandardBasis { .. } | RawExpr::ZeroMatrix { .. } => true,
        RawExpr::Type(ty) => implicit_in_type(ty),
        RawExpr::Matrix(matrix) => implicit_in_list(&matrix.elements),
        RawExpr::Monop(_, x) => implicit_in(x),
        RawExpr::Binop(_, x, y) => implicit_in(x) || implicit_in(y),
        RawExpr::Triop(_, x, y, z) => implicit_in(x) || implicit_in(y) || implicit_in(z),
        RawExpr::Finop(_, operands) => implicit_in_list(operands),
        RawExpr::CmpChain(chain) => {
            implicit_in(&chain.start) || implicit_in_comparisons(&chain.assertions)
        },
        RawExpr::LogicChain(chain) => {
            implicit_in(&chain.start) || implicit_in_logic(&chain.assertions)
        },
        RawExpr::Seqop(_, range, body) => implicit_in(&range.from) || implicit_in(&range.to) || implicit_in(body),
        RawExpr::SetComprehension { domain, predicate, .. } => implicit_in_type(domain) || implicit_in(predicate),
        _ => false,
    }
}

/// `implicit_in` over the dimension expressions of a type.
pub fn implicit_in_type<Metadata>(ty: &TypeExpr<Metadata>) -> (found: bool)
    ensures
        found == mentions_implicit_type(type_view(*ty)),
    decreases *ty, 0nat,
{
    match ty {
        TypeExpr::Matrix(x, y) => implicit_in(x) || implicit_in(y),
        TypeExpr::Sequence(x, y) => implicit_in(x) || implicit_in(y),
        TypeExpr::SetOf(inner) => {
            let inner: &TypeExpr<Metadata> = inner;
            implicit_in_type(inner)
        },
        _ => false,
    }
}

/// `implicit_in` over a list of trees.
pub fn implicit_in_list<Metadata>(expressions: &Vec<Expr<Metadata>>) -> (found: bool)
    ensures
        found == mentions_implicit_seq(views(expressions@)),
    decreases expressions@, 0nat,
{
    let ghost all = views(expressions@);
    proof {
        lemma_views(expressions@);
    }
    let mut found = false;
    let mut i: usize = 0;
    while i < expressions.len()
        invariant
            i <= expressions.len(),
            all == views(expressions@),
            all.len() == expressions.len(),
            forall|j: int| 0 <= j < expressions.len() ==> #[trigger] all[j] == expressions@[j]@,
            found == mentions_implicit_seq(all.take(i as int)),
        decreases expressions.len() - i,
    {
        proof {
            assert(all.take(i + 1).drop_last() =~= all.take(i as int));
            assert(decreases_to!(expressions@ => expressions@[i as int]));
        }
        found = found || implicit_in(&expressions[i]);
        i = i + 1;
    }
    proof {
        assert(all.take(expressions.len() as int) =~= all);
    }
    found
}

/// `implicit_in` over the trees of a list of links.
pub fn implicit_in_comparisons<Metadata>(links: &Vec<(Cmp, Expr<Metadata>)>) -> (found: bool)
    ensures
        found == mentions_implicit_links(comparison_views(links@)),
    decreases links@, 0nat,
{
    let ghost all = comparison_views(links@);
    proof {
        lemma_comparison_views(links@);
    }
    let mut found = false;
    let mut i: usize = 0;
    while i < links.len()
        invariant
            i <= links.len(),
            all == comparison_views(links@),
            all.len() == links.len(),
            forall|j: int| 0 <= j < links.len() ==> #[trigger] all[j] == (links@[j].0, links@[j].1@),
            found == mentions_implicit_links(all.take(i as int)),
        decreases links.len() - i,
    {
        proof {
            assert(all.take(i + 1).drop_last() =~= all.take(i as int));
            assert(decreases_to!(links@ => links@[i as int]));
        }
        found = found || implicit_in(&links[i].1);
        i = i + 1;
    }
    proof {
        assert(all.take(links.len() as int) =~= all);
    }
    found
}

/// `implicit_in` over the trees of a list of links.
pub fn implicit_in_logic<Metadata>(links: &Vec<(Logic, Expr<Metadata>)>) -> (found: bool)
    ensures
        found == mentions_implicit_links(logic_views(links@)),
    decreases links@, 0nat,
{
    let ghost all = logic_views(links@);
    proof {
        lemma_logic_views(links@);
    }
    let mut found = false;
    let mut i: usize = 0;
    while i < links.len()
        invariant
            i <= links.len(),
            all == logic_views(links@),
            all.len() == links.len(),
            forall|j: int| 0 <= j < links.len() ==> #[trigger] all[j] == (links@[j].0, links@[j].1@),
            found == mentions_implicit_links(all.take(i as int)),
        decreases links.len() - i,
    {
        proof {
            assert(all.take(i + 1).drop_last() =~= all.take(i as int));
            assert(decreases_to!(links@ => links@[i as int]));
        }
        found = found || implicit_in(&links[i].1);
        i = i + 1;
    }
    proof {
        assert(all.take(links.len() as int) =~= all);
    }
    found
}

/// Whether the expression depends on an implicit dimension.
pub fn depends_on_implicit_dimension<Metadata>(expression: &Expr<Metadata>) -> (depends: bool)
    ensures
        depends == mentions_implicit(expression@),
{
    implicit_in(expression)
}

/// Whether a type's dimensions depend on an implicit dimension.
pub fn type_depends_on_implicit(ty: &TypeExpr<()>) -> (depends: bool)
    ensures
        depends == mentions_implicit_type(type_view(*ty)),
{
    implicit_in_type(ty)
}

/// What collecting variables has found so far: the free variables, the
/// sequence indices in scope, every index bound so far, and the last
/// collision met.
pub struct CollectionState {
    pub variables: Set<VariableView>,
    pub active: Set<VariableView>,
    pub seen: Set<VariableView>,
    pub failure: Option<Seq<char>>,
}

pub open spec fn failed(s: CollectionState, message: Seq<char>) -> CollectionState {
    CollectionState { variables: s.variables, active: s.active, seen: s.seen, failure: Some(message) }
}

pub open spec fn free_collision(v: VariableView) -> Seq<char> {
    "sequence index "@ + variable_name(v) + " collides with a free variable"@
}

pub open spec fn binder_collision(v: VariableView) -> Seq<char> {
    "sequence index "@ + variable_name(v) + " collides with an enclosing or free variable"@
}

/// Collection under a binder of `v`: a binder that collides with an
/// enclosing binder or a free variable already found is a failure and its
/// scope is skipped; otherwise the scope is collected with `v` bound.
pub open spec fn bound_scope(s: CollectionState, v: VariableView, scope: ExprView) -> CollectionState
    decreases scope, 1nat,
{
    if s.active.contains(v) || s.variables.contains(v) {
        failed(s, binder_collision(v))
    } else {
        let inner = collected(
            scope,
            CollectionState { variables: s.variables, active: s.active.insert(v), seen: s.seen.insert(v), failure: s.failure },
        );
        CollectionState { variables: inner.variables, active: inner.active.remove(v), seen: inner.seen, failure: inner.failure }
    }
}

/// The state after collecting the variables of a tree, left to right.
pub open spec fn collected(e: ExprView, s: CollectionState) -> CollectionState
    decreases e, 0nat,
{
    match e {
        ExprView::Variable(v) => if s.active.contains(v) {
            s
        } else if s.seen.contains(v) {
            failed(s, free_collision(v))
        } else {
            CollectionState { variables: s.variables.insert(v), active: s.active, seen: s.seen, failure: s.failure }
        },
        ExprView::StandardBasis(index, _) => collected(*index, s),
        ExprView::Type(t) => collected_type(t, s),
        ExprView::Matrix(_, _, elements) => collected_list(elements, s),
        ExprView::Monop(_, a) => collected(*a, s),
        ExprView::Binop(_, a, b) => collected(*b, collected(*a, s)),
        ExprView::Triop(_, a, b, c) => collected(*c, collected(*b, collected(*a, s))),
        ExprView::Finop(_, operands) => collected_list(operands, s),
        ExprView::CmpChain(start, links) => collected_links(links, collected(*start, s)),
        ExprView::LogicChain(start, links) => collected_links(links, collected(*start, s)),
        ExprView::Seqop(_, v, from, to, body) => bound_scope(collected(*to, collected(*from, s)), v, *body),
        ExprView::SetComprehension(v, domain, predicate) => bound_scope(collected_type(domain, s), v, *predicate),
        _ => s,
    }
}

pub open spec fn collected_type(t: TypeView, s: CollectionState) -> CollectionState
    decreases t, 0nat,
{
    match t {
        TypeView::Matrix(a, b) => collected(*b, collected(*a, s)),
        TypeView::Sequence(a, b) => collected(*b, collected(*a, s)),
        TypeView::SetOf(inner) => collected_type(*inner, s),
        _ => s,
    }
}

pub open spec fn collected_list(l: Seq<ExprView>, s: CollectionState) -> CollectionState
    decreases l, 0nat,
{
    if l.len() == 0 {
        s
    } else {
        collected(l.last(), collected_list(l.drop_last(), s))
    }
}

pub open spec fn collected_links<O>(l: Seq<(O, ExprView)>, s: CollectionState) -> CollectionState
    decreases l, 0nat,
{
    if l.len() == 0 {
        s
    } else {
        collected(l.last().1, collected_links(l.drop_last(), s))
    }
}

struct Collector {
    variables: Vec<Variable>,
    active: Vec<Variable>,
    seen: Vec<Variable>,
    error: Option<ShapeError>,
}

impl Collector {
    spec fn state(&self) -> CollectionState {
        CollectionState {
            variables: variable_set(self.variables@),
            active: variable_set(self.active@),
            seen: variable_set(self.seen@),
            failure: match self.error {
                Some(ShapeError::InvalidTyping(message)) => Some(message@),
                _ => None,
            },
        }
    }

    spec fn inv(&self) -> bool {
        &&& distinct_variables(self.variables@)
        &&& distinct_variables(self.active@)
        &&& distinct_variables(self.seen@)
        &&& (self.error is None || self.error matches Some(ShapeError::InvalidTyping(_)))
    }

    fn fail(&mut self, prefix: &str, variable: &Variable, suffix: &str)
        requires
            old(self).inv(),
        ensures
            final(self).inv(),
            final(self).active@ == old(self).active@,
            final(self).state() == failed(old(self).state(), prefix@ + variable_name(variable.view_variable()) + suffix@),
    {
        let mut message = String::from_str(prefix);
        let name = variable.z3_name();
        message.append(name.as_str());
        message.append(suffix);
        self.error = Some(ShapeError::InvalidTyping(message));
    }

    fn visit_variable(&mut self, variable: &Variable)
        requires
            old(self).inv(),
        ensures
            final(self).inv(),
            final(self).active@ == old(self).active@,
            final(self).state() == collected(ExprView::Variable(variable.view_variable()), old(self).state()),
    {
        if crate::operator_visitors::listed(&self.active, variable) {
            return;
        }
        if crate::operator_visitors::listed(&self.seen, variable) {
            self.fail("sequence index ", variable, " collides with a free variable");
            return;
        }
        crate::expression_utils::insert_variable(&mut self.variables, variable);
    }
}

/// Collecting a tree leaves the set of binders in scope as it found it.
proof fn lemma_collection_restores_binders(e: ExprView, s: CollectionState)
    ensures
        collected(e, s).active == s.active,
    decreases e, 0nat,
{
    match e {
        ExprView::StandardBasis(index, _) => lemma_collection_restores_binders(*index, s),
        ExprView::Type(t) => lemma_type_collection_restores_binders(t, s),
        ExprView::Matrix(_, _, elements) => lemma_list_collection_restores_binders(elements, s),
        ExprView::Monop(_, a) => lemma_collection_restores_binders(*a, s),
        ExprView::Binop(_, a, b) => {
            lemma_collection_restores_binders(*a, s);
            lemma_collection_restores_binders(*b, collected(*a, s));
        },
        ExprView::Triop(_, a, b, c) => {
            lemma_collection_restores_binders(*a, s);
            lemma_collection_restores_binders(*b, collected(*a, s));
            lemma_collection_restores_binders(*c, collected(*b, collected(*a, s)));
        },
        ExprView::Finop(_, operands) => lemma_list_collection_restores_binders(operands, s),
        ExprView::CmpChain(start, links) => {
            lemma_collection_restores_binders(*start, s);
            lemma_links_collection_restores_binders(links, collected(*start, s));
        },
        ExprView::LogicChain(start, links) => {
            lemma_collection_restores_binders(*start, s);
            lemma_links_collection_restores_binders(links, collected(*start, s));
        },
        ExprView::Seqop(_, v, from, to, body) => {
            lemma_collection_restores_binders(*from, s);
            let s1 = collected(*from, s);
            lemma_collection_restores_binders(*to, s1);
            let s2 = collected(*to, s1);
            assert(collected(e, s) == bound_scope(s2, v, *body));
            if !(s2.active.contains(v) || s2.variables.contains(v)) {
                let entered = CollectionState { variables: s2.variables, active: s2.active.insert(v), seen: s2.seen.insert(v), failure: s2.failure };
                lemma_collection_restores_binders(*body, entered);
                assert(s2.active.insert(v).remove(v) =~= s2.active);
            }
        },
        ExprView::SetComprehension(v, domain, predicate) => {
            lemma_type_collection_restores_binders(domain, s);
            let s1 = collected_type(domain, s);
            assert(collected(e, s) == bound_scope(s1, v, *predicate));
            if !(s1.active.contains(v) || s1.variables.contains(v)) {
                let entered = CollectionState { variables: s1.variables, active: s1.active.insert(v), seen: s1.seen.insert(v), failure: s1.failure };
                lemma_collection_restores_binders(*predicate, entered);
                assert(s1.active.insert(v).remove(v) =~= s1.active);
            }
        },
        _ => {},
    }
}

proof fn lemma_type_collection_restores_binders(t: TypeView, s: CollectionState)
    ensures
        collected_type(t, s).active == s.active,
    decreases t, 0nat,
{
    match t {
        TypeView::Matrix(a, b) => {
            lemma_collection_restores_binders(*a, s);
            lemma_collection_restores_binders(*b, collected(*a, s));
        },
        TypeView::Sequence(a, b) => {
            lemma_collection_restores_binders(*a, s);
            lemma_collection_restores_binders(*b, collected(*a, s));
        },
        TypeView::SetOf(inner) => lemma_type_collection_restores_binders(*inner, s),
        _ => {},
    }
}

proof fn lemma_list_collection_restores_binders(l: Seq<ExprView>, s: CollectionState)
    ensures
        collected_list(l, s).active == s.active,
    decreases l, 0nat,
{
    if l.len() > 0 {
        lemma_list_collection_restores_binders(l.drop_last(), s);
        lemma_collection_restores_binders(l.last(), collected_list(l.drop_last(), s));
    }
}

proof fn lemma_links_collection_restores_binders<O>(l: Seq<(O, ExprView)>, s: CollectionState)
    ensures
        collected_links(l, s).active == s.active,
    decreases l, 0nat,
{
    if l.len() > 0 {
        lemma_links_collection_restores_binders(l.drop_last(), s);
        lemma_collection_restores_binders(l.last().1, collected_links(l.drop_last(), s));
    }
}

impl Collector {
    /// Collects the scope of a binder of `binder`.
    fn visit_bound<Metadata>(&mut self, binder: &Variable, scope: &Expr<Metadata>)
        requires
            old(self).inv(),
        ensures
            final(self).inv(),
            final(self).active@ == old(self).active@,
            final(self).state() == bound_scope(old(self).state(), binder.view_variable(), scope@),
        decreases *scope, 1nat,
    {
        if crate::operator_visitors::listed(&self.active, binder) || crate::operator_visitors::listed(&self.variables, binder) {
            self.fail("sequence index ", binder, " collides with an enclosing or free variable");
            return;
        }
        let ghost before = self.active@;
        let ghost entered_state = CollectionState {
            variables: self.state().variables,
            active: self.state().active.insert(binder.view_variable()),
            seen: self.state().seen.insert(binder.view_variable()),
            failure: self.state().failure,
        };
        crate::expression_utils::insert_variable(&mut self.seen, binder);
        proof {
            lemma_variable_set(self.active@);
        }
        self.active.push(binder.duplicate());
        proof {
            lemma_variable_set(before);
            assert(self.active@.drop_last() =~= before);
            assert(variable_set(self.active@) =~= variable_set(before).insert(binder.view_variable()));
            assert(distinct_variables(self.active@)) by {
                assert forall|i: int, j: int| 0 <= i < j < self.active@.len() implies self.active@[i].view_variable()
                    != self.active@[j].view_variable() by {
                    if j == self.active@.len() - 1 {
                        assert(variable_set(before).contains(before[i].view_variable()));
                    }
                }
            }
            assert(self.state() == entered_state);
        }
        self.visit_expr(scope);
        proof {
            lemma_collection_restores_binders(scope@, entered_state);
        }
        self.active.pop();
        proof {
            assert(self.active@ =~= before);
            assert(variable_set(before).insert(binder.view_variable()).remove(binder.view_variable()) =~= variable_set(before));
        }
    }

    /// Collects the variables of a tree, as `collected` describes it.
    #[verifier::rlimit(60)]
    fn visit_expr<Metadata>(&mut self, e: &Expr<Metadata>)
        requires
            old(self).inv(),
        ensures
            final(self).inv(),
            final(self).active@ == old(self).active@,
            final(self).state() == collected(e@, old(self).state()),
        decreases *e, 0nat,
    {
        match e.raw() {
            RawExpr::Variable(v) => self.visit_variable(v),
            RawExpr::StandardBasis { index, .. } => self.visit_expr(index),
            RawExpr::Type(t) => self.visit_type(t),
            RawExpr::Matrix(m) => self.visit_list(&m.elements),
            RawExpr::Monop(_, a) => self.visit_expr(a),
            RawExpr::Binop(_, a, b) => {
                self.visit_expr(a);
                self.visit_expr(b);
            },
            RawExpr::Triop(_, a, b, c) => {
                self.visit_expr(a);
                self.visit_expr(b);
                self.visit_expr(c);
            },
            RawExpr::Finop(_, operands) => self.visit_list(operands),
            RawExpr::CmpChain(chain) => {
                self.visit_expr(&chain.start);
                self.visit_comparisons(&chain.assertions);
            },
            RawExpr::LogicChain(chain) => {
                self.visit_expr(&chain.start);
                self.visit_logic(&chain.assertions);
            },
            RawExpr::Seqop(_, range, body) => {
                self.visit_expr(&range.from);
                self.visit_expr(&range.to);
                self.visit_bound(&range.index_variable, body);
            },
            RawExpr::SetComprehension { variable, domain, predicate } => {
                self.visit_type(domain);
                self.visit_bound(variable, predicate);
            },
            _ => {},
        }
    }

    fn visit_type<Metadata>(&mut self, t: &TypeExpr<Metadata>)
        requires
            old(self).inv(),
        ensures
            final(self).inv(),
            final(self).active@ == old(self).active@,
            final(self).state() == collected_type(type_view(*t), old(self).state()),
        decreases *t, 0nat,
    {
        match t {
            TypeExpr::Matrix(a, b) => {
                self.visit_expr(a);
                self.visit_expr(b);
            },
            TypeExpr::Sequence(a, b) => {
                self.visit_expr(a);
                self.visit_expr(b);
            },
            TypeExpr::SetOf(inner) => {
                let inner: &TypeExpr<Metadata> = inner;
                self.visit_type(inner);
            },
            _ => {},
        }
    }

    fn visit_list<Metadata>(&mut self, xs: &Vec<Expr<Metadata>>)
        requires
            old(self).inv(),
        ensures
            final(self).inv(),
            final(self).active@ == old(self).active@,
            final(self).state() == collected_list(views(xs@), old(self).state()),
        decreases xs@, 1nat,
    {
        let ghost s0 = self.state();
        let ghost all = views(xs@);
        proof {
            lemma_views(xs@);
        }
        let mut i: usize = 0;
        while i < xs.len()
            invariant
                i <= xs.len(),
                self.inv(),
                self.active@ == old(self).active@,
                all == views(xs@),
                all.len() == xs.len(),
                forall|j: int| 0 <= j < xs.len() ==> #[trigger] all[j] == xs@[j]@,
                self.state() == collected_list(all.take(i as int), s0),
            decreases xs.len() - i,
        {
            proof {
                assert(all.take(i + 1).drop_last() =~= all.take(i as int));
                assert(decreases_to!(xs@ => xs@[i as int]));
            }
            self.visit_expr(&xs[i]);
            i = i + 1;
        }
        proof {
            assert(all.take(xs.len() as int) =~= all);
        }
    }

    fn visit_comparisons<Metadata>(&mut self, xs: &Vec<(Cmp, Expr<Metadata>)>)
        requires
            old(self).inv(),
        ensures
            final(self).inv(),
            final(self).active@ == old(self).active@,
            final(self).state() == collected_links(comparison_views(xs@), old(self).state()),
        decreases xs@, 1nat,
    {
        let ghost s0 = self.state();
        let ghost all = comparison_views(xs@);
        proof {
            lemma_comparison_views(xs@);
        }
        let mut i: usize = 0;
        while i < xs.len()
            invariant
                i <= xs.len(),
                self.inv(),
                self.active@ == old(self).active@,
                all == comparison_views(xs@),
                all.len() == xs.len(),
                forall|j: int| 0 <= j < xs.len() ==> #[trigger] all[j] == (xs@[j].0, xs@[j].1@),
                self.state() == collected_links(all.take(i as int), s0),
            decreases xs.len() - i,
        {
            proof {
                assert(all.take(i + 1).drop_last() =~= all.take(i as int));
                assert(decreases_to!(xs@ => xs@[i as int]));
            }
            self.visit_expr(&xs[i].1);
            i = i + 1;
        }
        proof {
            assert(all.take(xs.len() as int) =~= all);
        }
    }

    fn visit_logic<Metadata>(&mut self, xs: &Vec<(Logic, Expr<Metadata>)>)
        requires
            old(self).inv(),
        ensures
            final(self).inv(),
            final(self).active@ == old(self).active@,
            final(self).state() == collected_links(logic_views(xs@), old(self).state()),
        decreases xs@, 1nat,
    {
        let ghost s0 = self.state();
        let ghost all = logic_views(xs@);
        proof {
            lemma_logic_views(xs@);
        }
        let mut i: usize = 0;
        while i < xs.len()
            invariant
                i <= xs.len(),
                self.inv(),
                self.active@ == old(self).active@,
                all == logic_views(xs@),
                all.len() == xs.len(),
                forall|j: int| 0 <= j < xs.len() ==> #[trigger] all[j] == (xs@[j].0, xs@[j].1@),
                self.state() == collected_links(all.take(i as int), s0),
            decreases xs.len() - i,
        {
            proof {
                assert(all.take(i + 1).drop_last() =~= all.take(i as int));
                assert(decreases_to!(xs@ => xs@[i as int]));
            }
            self.visit_expr(&xs[i].1);
            i = i + 1;
        }
        proof {
            assert(all.take(xs.len() as int) =~= all);
        }
    }
}

/// Adds the free variables of the expression to `variables`: every variable
/// outside the scope of a sequence index of the same name. A sequence index
/// that shadows an enclosing index or a variable already found free, or a
/// variable used freely after an index of its name, is a typing failure
/// (the last one met is reported).
pub fn collect_free_variables<Metadata>(expression: &Expr<Metadata>, variables: &mut Vec<Variable>) -> (result: Result<(), ShapeError>)
    requires
        distinct_variables(old(variables)@),
    ensures
        distinct_variables(final(variables)@),
        ({
            let end = collected(
                expression@,
                CollectionState {
                    variables: variable_set(old(variables)@),
                    active: Set::empty(),
                    seen: Set::empty(),
                    failure: None,
                },
            );
            &&& variable_set(final(variables)@) == end.variables
            &&& match result {
                Ok(()) => end.failure is None,
                Err(error) => end.failure matches Some(message) && error == ShapeError::InvalidTyping(
                    error->InvalidTyping_0,
                ) && error->InvalidTyping_0@ == message,
            }
        }),
{
    let mut found: Vec<Variable> = Vec::new();
    std::mem::swap(&mut found, variables);
    let mut collector = Collector { variables: found, active: Vec::new(), seen: Vec::new(), error: None };
    proof {
        assert(variable_set(collector.active@) =~= Set::<VariableView>::empty());
        assert(variable_set(collector.seen@) =~= Set::<VariableView>::empty());
    }
    collector.visit_expr(expression);
    std::mem::swap(&mut collector.variables, variables);
    match collector.error {
        None => Ok(()),
        Some(error) => Err(error),
    }
}

// ---------------------------------------------------------------------------
// Variables in natural positions
// ---------------------------------------------------------------------------

/// A collection of free variables that starts with `variables` and no
/// binder in scope.
pub open spec fn fresh_collection(variables: Set<VariableView>) -> CollectionState {
    CollectionState { variables, active: Set::empty(), seen: Set::empty(), failure: None }
}

/// The variables gathered in natural positions so far, and whether a
/// collection met a sequence-index collision on the way.
pub struct DimensionWalk {
    pub variables: Set<VariableView>,
    pub broken: bool,
}

/// Adds the free variables of `x`.
pub open spec fn absorbed(x: ExprView, w: DimensionWalk) -> DimensionWalk {
    if w.broken {
        w
    } else {
        let s = collected(x, fresh_collection(w.variables));
        DimensionWalk { variables: s.variables, broken: s.failure is Some }
    }
}

/// Adds the free variables of the dimensions of a type: the rows and
/// columns of a matrix type, the element and the length of a sequence type.
pub open spec fn type_dimensions(t: TypeView, w: DimensionWalk) -> DimensionWalk {
    match t {
        TypeView::Matrix(rows, cols) => absorbed(*cols, absorbed(*rows, w)),
        TypeView::Sequence(element, length) => absorbed(*length, absorbed(*element, w)),
        _ => w,
    }
}

/// Adds the variables that stand in natural positions of a tree: the
/// dimensions of written types, standard-basis indices, exponents and
/// subscripts, and the bounds of sequence operations.
pub open spec fn natural_positions(e: ExprView, w: DimensionWalk) -> DimensionWalk
    decreases e, 0nat,
{
    match e {
        ExprView::Type(t) => type_dimensions(t, w),
        ExprView::StandardBasis(index, _) => absorbed(*index, w),
        ExprView::Binop(op, x, y) => if op == crate::Binop::Power || op == crate::Binop::SingleSubscript {
            absorbed(*y, natural_positions(*x, w))
        } else {
            natural_positions(*y, natural_positions(*x, w))
        },
        ExprView::Seqop(_, _, from, to, body) => natural_positions(*body, absorbed(*to, absorbed(*from, w))),
        ExprView::Matrix(_, _, elements) => natural_positions_seq(elements, w),
        ExprView::Monop(_, x) => natural_positions(*x, w),
        ExprView::Triop(_, x, y, z) => natural_positions(*z, natural_positions(*y, natural_positions(*x, w))),
        ExprView::Finop(_, operands) => natural_positions_seq(operands, w),
        ExprView::CmpChain(start, links) => natural_positions_links(links, natural_positions(*start, w)),
        ExprView::LogicChain(start, links) => natural_positions_links(links, natural_positions(*start, w)),
        ExprView::SetComprehension(_, domain, predicate) => natural_positions(
            *predicate,
            natural_positions_type(domain, w),
        ),
        _ => w,
    }
}

/// `natural_positions` over the dimension expressions of a type that is
/// not written as an expression.
pub open spec fn natural_positions_type(t: TypeView, w: DimensionWalk) -> DimensionWalk
    decreases t, 0nat,
{
    match t {
        TypeView::Matrix(x, y) => natural_positions(*y, natural_positions(*x, w)),
        TypeView::Sequence(x, y) => natural_positions(*y, natural_positions(*x, w)),
        TypeView::SetOf(inner) => natural_positions_type(*inner, w),
        _ => w,
    }
}

/// `natural_positions` over a list of trees.
pub open spec fn natural_positions_seq(s: Seq<ExprView>, w: DimensionWalk) -> DimensionWalk
    decreases s, 1nat,
{
    if s.len() == 0 {
        w
    } else {
        natural_positions(s.last(), natural_positions_seq(s.drop_last(), w))
    }
}

/// `natural_positions` over the trees of a list of links.
pub open spec fn natural_positions_links<O>(s: Seq<(O, ExprView)>, w: DimensionWalk) -> DimensionWalk
    decreases s, 1nat,
{
    if s.len() == 0 {
        w
    } else {
        natural_positions(s.last().1, natural_positions_links(s.drop_last(), w))
    }
}

/// Once a collision is met, nothing changes.
proof fn lemma_positions_stay_broken(e: ExprView, w: DimensionWalk)
    requires
        w.broken,
    ensures
        natural_positions(e, w) == w,
    decreases e, 0nat,
{
    match e {
        ExprView::Binop(_, x, y) => {
            lemma_positions_stay_broken(*x, w);
            lemma_positions_stay_broken(*y, w);
        },
        ExprView::Seqop(_, _, _, _, body) => lemma_positions_stay_broken(*body, w),
        ExprView::Matrix(_, _, elements) => lemma_positions_seq_stay_broken(elements, w),
        ExprView::Monop(_, x) => lemma_positions_stay_broken(*x, w),
        ExprView::Triop(_, x, y, z) => {
            lemma_positions_stay_broken(*x, w);
            lemma_positions_stay_broken(*y, w);
            lemma_positions_stay_broken(*z, w);
        },
        ExprView::Finop(_, operands) => lemma_positions_seq_stay_broken(operands, w),
        ExprView::CmpChain(start, links) => {
            lemma_positions_stay_broken(*start, w);
            lemma_positions_links_stay_broken(links, w);
        },
        ExprView::LogicChain(start, links) => {
            lemma_positions_stay_broken(*start, w);
            lemma_positions_links_stay_broken(links, w);
        },
        ExprView::SetComprehension(_, domain, predicate) => {
            lemma_positions_type_stay_broken(domain, w);
            lemma_positions_stay_broken(*predicate, w);
        },
        _ => {},
    }
}

proof fn lemma_positions_type_stay_broken(t: TypeView, w: DimensionWalk)
    requires
        w.broken,
    ensures
        natural_positions_type(t, w) == w,
    decreases t, 0nat,
{
    match t {
        TypeView::Matrix(x, y) => {
            lemma_positions_stay_broken(*x, w);
            lemma_positions_stay_broken(*y, w);
        },
        TypeView::Sequence(x, y) => {
            lemma_positions_stay_broken(*x, w);
            lemma_positions_stay_broken(*y, w);
        },
        TypeView::SetOf(inner) => lemma_positions_type_stay_broken(*inner, w),
        _ => {},
    }
}

proof fn lemma_positions_seq_stay_broken(s: Seq<ExprView>, w: DimensionWalk)
    requires
        w.broken,
    ensures
        natural_positions_seq(s, w) == w,
    decreases s, 1nat,
{
    if s.len() > 0 {
        lemma_positions_seq_stay_broken(s.drop_last(), w);
        lemma_positions_stay_broken(s.last(), w);
    }
}

proof fn lemma_positions_links_stay_broken<O>(s: Seq<(O, ExprView)>, w: DimensionWalk)
    requires
        w.broken,
    ensures
        natural_positions_links(s, w) == w,
    decreases s, 1nat,
{
    if s.len() > 0 {
        lemma_positions_links_stay_broken(s.drop_last(), w);
        lemma_positions_stay_broken(s.last().1, w);
    }
}

/// The walk state of a list of variables with no collision met.
pub open spec fn walk_of(variables: Seq<Variable>) -> DimensionWalk {
    DimensionWalk { variables: variable_set(variables), broken: false }
}

/// Adds the free variables of `x`, which binds no index in conflict.
fn absorb<Metadata>(x: &Expr<Metadata>, variables: &mut Vec<Variable>)
    requires
        distinct_variables(old(variables)@),
        !absorbed(x@, walk_of(old(variables)@)).broken,
    ensures
        distinct_variables(final(variables)@),
        walk_of(final(variables)@) == absorbed(x@, walk_of(old(variables)@)),
{
    let _ = collect_free_variables(x, variables);
}

/// Adds the variables of the dimensions of a type, whose dimensions bind
/// no index in conflict.
pub fn collect_type_dimension_variables(ty: &TypeExpr<()>, variables: &mut Vec<Variable>)
    requires
        distinct_variables(old(variables)@),
        !type_dimensions(type_view(*ty), walk_of(old(variables)@)).broken,
    ensures
        distinct_variables(final(variables)@),
        walk_of(final(variables)@) == type_dimensions(type_view(*ty), walk_of(old(variables)@)),
{
    match ty {
        TypeExpr::Matrix(rows, cols) => {
            absorb(rows, variables);
            absorb(cols, variables);
        },
        TypeExpr::Sequence(element, length) => {
            absorb(element, variables);
            absorb(length, variables);
        },
        _ => {},
    }
}

/// Adds the variables that stand in natural positions of the expression,
/// whose natural positions bind no index in conflict.
pub fn collect_natural_position_variables<Metadata>(expression: &Expr<Metadata>, variables: &mut Vec<Variable>)
    requires
        distinct_variables(old(variables)@),
        !natural_positions(expression@, walk_of(old(variables)@)).broken,
    ensures
        distinct_variables(final(variables)@),
        walk_of(final(variables)@) == natural_positions(expression@, walk_of(old(variables)@)),
    decreases *expression, 0nat,
{
    match expression.raw() {
        RawExpr::Type(ty) => collect_type_dimension_variables(&ty.with_default_metadata(), variables),
        RawExpr::StandardBasis { index, .. } => absorb(index, variables),
        RawExpr::Binop(op, x, y) => {
            let ghost w = walk_of(variables@);
            proof {
                if natural_positions(x@, w).broken {
                    lemma_positions_stay_broken(y@, natural_positions(x@, w));
                }
            }
            collect_natural_position_variables(x, variables);
            match op {
                crate::Binop::Power | crate::Binop::SingleSubscript => absorb(y, variables),
                _ => collect_natural_position_variables(y, variables),
            }
        },
        RawExpr::Seqop(_, range, body) => {
            let ghost w = walk_of(variables@);
            proof {
                let after_from = absorbed(range.from@, w);
                if after_from.broken {
                    lemma_positions_stay_broken(body@, absorbed(range.to@, after_from));
                } else if absorbed(range.to@, after_from).broken {
                    lemma_positions_stay_broken(body@, absorbed(range.to@, after_from));
                }
            }
            absorb(&range.from, variables);
            absorb(&range.to, variables);
            collect_natural_position_variables(body, variables);
        },
        RawExpr::Matrix(m) => positions_in_list(&m.elements, variables),
        RawExpr::Monop(_, x) => collect_natural_position_variables(x, variables),
        RawExpr::Triop(_, x, y, z) => {
            let ghost w = walk_of(variables@);
            proof {
                let wx = natural_positions(x@, w);
                let wy = natural_positions(y@, wx);
                if wx.broken {
                    lemma_positions_stay_broken(y@, wx);
                    lemma_positions_stay_broken(z@, wx);
                } else if wy.broken {
                    lemma_positions_stay_broken(z@, wy);
                }
            }
            collect_natural_position_variables(x, variables);
            collect_natural_position_variables(y, variables);
            collect_natural_position_variables(z, variables);
        },
        RawExpr::Finop(_, operands) => positions_in_list(operands, variables),
        RawExpr::CmpChain(c) => {
            proof {
                let ws = natural_positions(c.start@, walk_of(variables@));
                if ws.broken {
                    lemma_positions_links_stay_broken(comparison_views(c.assertions@), ws);
                }
            }
            collect_natural_position_variables(&c.start, variables);
            positions_in_comparisons(&c.assertions, variables);
        },
        RawExpr::LogicChain(c) => {
            proof {
                let ws = natural_positions(c.start@, walk_of(variables@));
                if ws.broken {
                    lemma_positions_links_stay_broken(logic_views(c.assertions@), ws);
                }
            }
            collect_natural_position_variables(&c.start, variables);
            positions_in_logic(&c.assertions, variables);
        },
        RawExpr::SetComprehension { domain, predicate, .. } => {
            proof {
                let wd = natural_positions_type(type_view(*domain), walk_of(variables@));
                if wd.broken {
                    lemma_positions_stay_broken(predicate@, wd);
                }
            }
            positions_in_type(domain, variables);
            collect_natural_position_variables(predicate, variables);
        },
        _ => {},
    }
}

/// `collect_natural_position_variables` over a type that is not written as
/// an expression.
fn positions_in_type<Metadata>(ty: &TypeExpr<Metadata>, variables: &mut Vec<Variable>)
    requires
        distinct_variables(old(variables)@),
        !natural_positions_type(type_view(*ty), walk_of(old(variables)@)).broken,
    ensures
        distinct_variables(final(variables)@),
        walk_of(final(variables)@) == natural_positions_type(type_view(*ty), walk_of(old(variables)@)),
    decreases *ty, 0nat,
{
    match ty {
        TypeExpr::Matrix(x, y) => {
            proof {
                let wx = natural_positions(x@, walk_of(variables@));
                if wx.broken {
                    lemma_positions_stay_broken(y@, wx);
                }
            }
            collect_natural_position_variables(x, variables);
            collect_natural_position_variables(y, variables);
        },
        TypeExpr::Sequence(x, y) => {
            proof {
                let wx = natural_positions(x@, walk_of(variables@));
                if wx.broken {
                    lemma_positions_stay_broken(y@, wx);
                }
            }
            collect_natural_position_variables(x, variables);
            collect_natural_position_variables(y, variables);
        },
        TypeExpr::SetOf(inner) => {
            let inner: &TypeExpr<Metadata> = inner;
            positions_in_type(inner, variables);
        },
        _ => {},
    }
}

/// The walk of a list that does not break has a prefix that does not break.
proof fn lemma_positions_seq_prefix(s: Seq<ExprView>, w: DimensionWalk, n: int)
    requires
        0 <= n <= s.len(),
        !natural_positions_seq(s, w).broken,
    ensures
        !natural_positions_seq(s.take(n), w).broken,
    decreases s.len() - n,
{
    if n < s.len() {
        lemma_positions_seq_prefix(s, w, n + 1);
        assert(s.take(n + 1).drop_last() =~= s.take(n));
        if natural_positions_seq(s.take(n), w).broken {
            lemma_positions_stay_broken(s[n], natural_positions_seq(s.take(n), w));
        }
    } else {
        assert(s.take(n) =~= s);
    }
}

/// The link form of `lemma_positions_seq_prefix`.
proof fn lemma_positions_links_prefix<O>(s: Seq<(O, ExprView)>, w: DimensionWalk, n: int)
    requires
        0 <= n <= s.len(),
        !natural_positions_links(s, w).broken,
    ensures
        !natural_positions_links(s.take(n), w).broken,
    decreases s.len() - n,
{
    if n < s.len() {
        lemma_positions_links_prefix(s, w, n + 1);
        assert(s.take(n + 1).drop_last() =~= s.take(n));
        if natural_positions_links(s.take(n), w).broken {
            lemma_positions_stay_broken(s[n].1, natural_positions_links(s.take(n), w));
        }
    } else {
        assert(s.take(n) =~= s);
    }
}

fn positions_in_list<Metadata>(xs: &Vec<Expr<Metadata>>, variables: &mut Vec<Variable>)
    requires
        distinct_variables(old(variables)@),
        !natural_positions_seq(views(xs@), walk_of(old(variables)@)).broken,
    ensures
        distinct_variables(final(variables)@),
        walk_of(final(variables)@) == natural_positions_seq(views(xs@), walk_of(old(variables)@)),
    decreases xs@, 0nat,
{
    let ghost w0 = walk_of(variables@);
    let ghost all = views(xs@);
    proof {
        lemma_views(xs@);
    }
    let mut i: usize = 0;
    while i < xs.len()
        invariant
            i <= xs.len(),
            all == views(xs@),
            all.len() == xs.len(),
            forall|j: int| 0 <= j < xs.len() ==> #[trigger] all[j] == xs@[j]@,
            !natural_positions_seq(all, w0).broken,
            distinct_variables(variables@),
            walk_of(variables@) == natural_positions_seq(all.take(i as int), w0),
        decreases xs.len() - i,
    {
        proof {
            assert(all.take(i + 1).drop_last() =~= all.take(i as int));
            assert(decreases_to!(xs@ => xs@[i as int]));
            lemma_positions_seq_prefix(all, w0, i + 1);
        }
        collect_natural_position_variables(&xs[i], variables);
        i = i + 1;
    }
    proof {
        assert(all.take(xs.len() as int) =~= all);
    }
}

fn positions_in_comparisons<Metadata>(xs: &Vec<(Cmp, Expr<Metadata>)>, variables: &mut Vec<Variable>)
    requires
        distinct_variables(old(variables)@),
        !natural_positions_links(comparison_views(xs@), walk_of(old(variables)@)).broken,
    ensures
        distinct_variables(final(variables)@),
        walk_of(final(variables)@) == natural_positions_links(comparison_views(xs@), walk_of(old(variables)@)),
    decreases xs@, 0nat,
{
    let ghost w0 = walk_of(variables@);
    let ghost all = comparison_views(xs@);
    proof {
        lemma_comparison_views(xs@);
    }
    let mut i: usize = 0;
    while i < xs.len()
        invariant
            i <= xs.len(),
            all == comparison_views(xs@),
            all.len() == xs.len(),
            forall|j: int| 0 <= j < xs.len() ==> #[trigger] all[j] == (xs@[j].0, xs@[j].1@),
            !natural_positions_links(all, w0).broken,
            distinct_variables(variables@),
            walk_of(variables@) == natural_positions_links(all.take(i as int), w0),
        decreases xs.len() - i,
    {
        proof {
            assert(all.take(i + 1).drop_last() =~= all.take(i as int));
            assert(decreases_to!(xs@ => xs@[i as int]));
            lemma_positions_links_prefix(all, w0, i + 1);
        }
        collect_natural_position_variables(&xs[i].1, variables);
        i = i + 1;
    }
    proof {
        assert(all.take(xs.len() as int) =~= all);
    }
}

fn positions_in_logic<Metadata>(xs: &Vec<(Logic, Expr<Metadata>)>, variables: &mut Vec<Variable>)
    requires
        distinct_variables(old(variables)@),
        !natural_positions_links(logic_views(xs@), walk_of(old(variables)@)).broken,
    ensures
        distinct_variables(final(variables)@),
        walk_of(final(variables)@) == natural_positions_links(logic_views(xs@), walk_of(old(variables)@)),
    decreases xs@, 0nat,
{
    let ghost w0 = walk_of(variables@);
    let ghost all = logic_views(xs@);
    proof {
        lemma_logic_views(xs@);
    }
    let mut i: usize = 0;
    while i < xs.len()
        invariant
            i <= xs.len(),
            all == logic_views(xs@),
            all.len() == xs.len(),
            forall|j: int| 0 <= j < xs.len() ==> #[trigger] all[j] == (xs@[j].0, xs@[j].1@),
            !natural_positions_links(all, w0).broken,
            distinct_variables(variables@),
            walk_of(variables@) == natural_positions_links(all.take(i as int), w0),
        decreases xs.len() - i,
    {
        proof {
            assert(all.take(i + 1).drop_last() =~= all.take(i as int));
            assert(decreases_to!(xs@ => xs@[i as int]));
            lemma_positions_links_prefix(all, w0, i + 1);
        }
        collect_natural_position_variables(&xs[i].1, variables);
        i = i + 1;
    }
    proof {
        assert(all.take(xs.len() as int) =~= all);
    }
}

// ---------------------------------------------------------------------------
// What the assumptions say of the environment
// ---------------------------------------------------------------------------

/// What a list of assumptions says of the environment: its free variables,
/// its explicit type memberships in order, the variables that stand in
/// natural positions, the first failure met, and whether a collection met a
/// sequence-index collision where none is expected.
pub struct SpecificationView {
    pub variables: Set<VariableView>,
    pub explicit: Seq<(VariableView, TypeView)>,
    pub dimensions: Set<VariableView>,
    pub failure: Option<Seq<char>>,
    pub broken: bool,
}

/// The operands of a type membership `left \in right`.
pub open spec fn membership(a: ExprView) -> Option<(ExprView, ExprView)> {
    match a {
        ExprView::Binop(op, left, right) => if op == crate::Binop::ElementOf {
            Some((*left, *right))
        } else {
            None
        },
        _ => None,
    }
}

/// The specification after one more assumption.
pub open spec fn specified_with(s: SpecificationView, a: ExprView) -> SpecificationView {
    if s.failure is Some || s.broken {
        s
    } else {
        let c = collected(a, fresh_collection(s.variables));
        let p = natural_positions(a, DimensionWalk { variables: s.dimensions, broken: false });
        if c.failure is Some {
            SpecificationView { variables: c.variables, failure: c.failure, ..s }
        } else if p.broken {
            SpecificationView { broken: true, ..s }
        } else {
            match membership(a) {
                None => SpecificationView { variables: c.variables, dimensions: p.variables, ..s },
                Some((left, right)) => match left {
                    ExprView::Variable(v) => match right {
                        ExprView::Type(t) => {
                            let d = type_dimensions(t, DimensionWalk { variables: p.variables, broken: false });
                            if d.broken {
                                SpecificationView { broken: true, ..s }
                            } else {
                                SpecificationView {
                                    variables: c.variables,
                                    explicit: s.explicit.push((v, t)),
                                    dimensions: d.variables,
                                    failure: None,
                                    broken: false,
                                }
                            }
                        },
                        _ => SpecificationView {
                            variables: c.variables,
                            dimensions: p.variables,
                            failure: Some("type membership must have a type on the right"@),
                            ..s
                        },
                    },
                    _ => SpecificationView {
                        variables: c.variables,
                        dimensions: p.variables,
                        failure: Some("type membership must have a variable on the left"@),
                        ..s
                    },
                },
            }
        }
    }
}

/// What the assumptions say, read in order.
pub open spec fn specified(assumptions: Seq<ExprView>) -> SpecificationView
    decreases assumptions.len(),
{
    if assumptions.len() == 0 {
        SpecificationView {
            variables: Set::empty(),
            explicit: Seq::empty(),
            dimensions: Set::empty(),
            failure: None,
            broken: false,
        }
    } else {
        specified_with(specified(assumptions.drop_last()), assumptions.last())
    }
}

/// Once a failure or a collision is met, further assumptions change nothing.
proof fn lemma_specification_stops(assumptions: Seq<ExprView>, n: int)
    requires
        0 <= n <= assumptions.len(),
        specified(assumptions.take(n)).failure is Some || specified(assumptions.take(n)).broken,
    ensures
        specified(assumptions) == specified(assumptions.take(n)),
    decreases assumptions.len() - n,
{
    if n < assumptions.len() {
        assert(assumptions.take(n + 1).drop_last() =~= assumptions.take(n));
        lemma_specification_stops(assumptions, n + 1);
    } else {
        assert(assumptions.take(n) =~= assumptions);
    }
}

/// The first explicit type given to `v`.
pub open spec fn first_explicit(s: Seq<(VariableView, TypeView)>, v: VariableView) -> Option<TypeView>
    decreases s.len(),
{
    if s.len() == 0 {
        None
    } else if s[0].0 == v {
        Some(s[0].1)
    } else {
        first_explicit(s.subrange(1, s.len() as int), v)
    }
}

/// The model of a list of explicit type memberships.
pub open spec fn explicit_view(s: Seq<(Variable, TypeExpr<()>)>) -> Seq<(VariableView, TypeView)> {
    s.map_values(|entry: (Variable, TypeExpr<()>)| (entry.0.view_variable(), type_view(entry.1)))
}

/// What a list of assumptions says of the environment.
pub struct EnvironmentSpecification {
    pub variables: Vec<Variable>,
    pub explicit_types: Vec<(Variable, TypeExpr<()>)>,
    pub dimension_variables: Vec<Variable>,
}

impl EnvironmentSpecification {
    pub open spec fn view_specification(&self) -> SpecificationView {
        SpecificationView {
            variables: variable_set(self.variables@),
            explicit: explicit_view(self.explicit_types@),
            dimensions: variable_set(self.dimension_variables@),
            failure: None,
            broken: false,
        }
    }

    pub open spec fn well_formed(&self) -> bool {
        distinct_variables(self.variables@) && distinct_variables(self.dimension_variables@)
    }
}

/// Reads the free variables, the explicit type memberships `x \in T` and the
/// variables in natural positions of the assumptions, in order. A type
/// membership whose left side is not a variable, or whose right side is not
/// a type, and a sequence-index collision in the free variables, are typing
/// failures.
pub fn collect_environment_specification(assumptions: &Vec<Expr<()>>) -> (result: Result<
    EnvironmentSpecification,
    ShapeError,
>)
    requires
        !specified(views(assumptions@)).broken,
    ensures
        match result {
            Ok(specification) => specification.well_formed() && specification.view_specification() == specified(
                views(assumptions@),
            ),
            Err(error) => specified(views(assumptions@)).failure matches Some(message) && error
                is InvalidTyping && error->InvalidTyping_0@ == message,
        },
{
    let ghost all = views(assumptions@);
    proof {
        lemma_views(assumptions@);
        assert(all.take(0) =~= Seq::<ExprView>::empty());
    }
    let mut specification = EnvironmentSpecification {
        variables: Vec::new(),
        explicit_types: Vec::new(),
        dimension_variables: Vec::new(),
    };
    proof {
        assert(explicit_view(specification.explicit_types@) =~= Seq::<(VariableView, TypeView)>::empty());
        assert(variable_set(specification.variables@) =~= Set::<VariableView>::empty());
        assert(variable_set(specification.dimension_variables@) =~= Set::<VariableView>::empty());
    }
    let mut i: usize = 0;
    while i < assumptions.len()
        invariant
            i <= assumptions.len(),
            all == views(assumptions@),
            all.len() == assumptions.len(),
            forall|j: int| 0 <= j < assumptions.len() ==> #[trigger] all[j] == assumptions@[j]@,
            !specified(all).broken,
            specification.well_formed(),
            specification.view_specification() == specified(all.take(i as int)),
        decreases assumptions.len() - i,
    {
        let ghost before = specification.view_specification();
        let ghost a = all[i as int];
        proof {
            assert(all.take(i + 1).drop_last() =~= all.take(i as int));
            assert(all.take(i + 1).last() == a);
            assert(specified(all.take(i + 1)) == specified_with(before, a));
        }
        let assumption = &assumptions[i];
        match collect_free_variables(assumption, &mut specification.variables) {
            Ok(()) => {},
            Err(error) => {
                proof {
                    lemma_specification_stops(all, i + 1);
                }
                return Err(error);
            },
        }
        proof {
            let p = natural_positions(a, DimensionWalk { variables: before.dimensions, broken: false });
            if p.broken {
                lemma_specification_stops(all, i + 1);
            }
        }
        collect_natural_position_variables(assumption, &mut specification.dimension_variables);
        let ghost positioned = specification.view_specification();
        match assumption.raw() {
            RawExpr::Binop(crate::Binop::ElementOf, left, right) => {
                match left.raw() {
                    RawExpr::Variable(variable) => match right.raw() {
                        RawExpr::Type(ty) => {
                            proof {
                                assert(a == ExprView::Binop(crate::Binop::ElementOf, Box::new(left@), Box::new(right@)));
                                assert(membership(a) == Some((left@, right@)));
                                assert(left@ == ExprView::Variable(variable.view_variable()));
                                assert(right@ == ExprView::Type(type_view(*ty)));
                                let d = type_dimensions(
                                    type_view(*ty),
                                    DimensionWalk { variables: positioned.dimensions, broken: false },
                                );
                                if d.broken {
                                    lemma_specification_stops(all, i + 1);
                                }
                            }
                            let ty = ty.duplicate();
                            collect_type_dimension_variables(&ty, &mut specification.dimension_variables);
                            let ghost explicit_before = specification.explicit_types@;
                            specification.explicit_types.push((variable.duplicate(), ty));
                            proof {
                                assert(explicit_view(specification.explicit_types@) =~= explicit_view(
                                    explicit_before,
                                ).push((variable.view_variable(), type_view(ty))));
                            }
                        },
                        _ => {
                            proof {
                                lemma_specification_stops(all, i + 1);
                            }
                            return Err(
                                ShapeError::InvalidTyping(
                                    String::from_str("type membership must have a type on the right"),
                                ),
                            );
                        },
                    },
                    _ => {
                        proof {
                            lemma_specification_stops(all, i + 1);
                        }
                        return Err(
                            ShapeError::InvalidTyping(
                                String::from_str("type membership must have a variable on the left"),
                            ),
                        );
                    },
                }
            },
            _ => {},
        }
        i = i + 1;
    }
    proof {
        assert(all.take(assumptions.len() as int) =~= all);
    }
    Ok(specification)
}

// ---------------------------------------------------------------------------
// Symbolic types of the free variables
// ---------------------------------------------------------------------------

/// The variable `<solver name of v>_{axis}` that names a dimension of `v`.
pub open spec fn dimension_variable(v: VariableView, axis: Seq<char>) -> VariableView {
    VariableView { name: variable_name(v) + "_{"@ + axis + "}"@, subscript: Seq::empty(), annotations: Seq::empty() }
}

/// A name that starts with an ASCII capital letter.
pub open spec fn starts_uppercase(name: Seq<char>) -> bool {
    name.len() > 0 && 'A' <= name[0] && name[0] <= 'Z'
}

/// One of the names that conventionally denote vectors.
pub open spec fn vector_name(name: Seq<char>) -> bool {
    name == "u"@ || name == "v"@ || name == "w"@ || name == "x"@ || name == "y"@ || name == "z"@
}

/// One of the names that conventionally denote naturals.
pub open spec fn natural_name(name: Seq<char>) -> bool {
    name == "n"@ || name == "i"@ || name == "j"@ || name == "k"@ || name == "l"@ || name == "m"@
}

/// The type guessed from a variable's name: a matrix with generated
/// dimensions for a capital initial, a column vector for `u` to `z`, a
/// natural for `i`, `j`, `k`, `l`, `m` and `n`, and a real otherwise.
pub open spec fn guessed_type(v: VariableView) -> TypeView {
    if starts_uppercase(v.name) {
        TypeView::Matrix(
            Box::new(ExprView::Variable(dimension_variable(v, "rows"@))),
            Box::new(ExprView::Variable(dimension_variable(v, "cols"@))),
        )
    } else if vector_name(v.name) {
        TypeView::Matrix(Box::new(ExprView::Variable(dimension_variable(v, "rows"@))), Box::new(ExprView::NatLiteral(1)))
    } else if natural_name(v.name) {
        TypeView::Nat
    } else {
        TypeView::Real
    }
}

/// Inferred types: a free variable of the assumptions in a natural position
/// is a natural; otherwise it has its first explicit type; and with none, the
/// type its name suggests: a matrix with `_{rows}` and `_{cols}` dimensions
/// for a capital initial, a column with `_{rows}` rows for `u` to `z`, a
/// natural for `i`, `j`, `k`, `l`, `m`, `n`, and a real otherwise.
pub proof fn law_inferred_types(s: SpecificationView, v: VariableView)
    requires
        s.variables.contains(v),
    ensures
        s.dimensions.contains(v) ==> inferred_type(s, v) == TypeView::Nat,
        !s.dimensions.contains(v) && first_explicit(s.explicit, v) is Some ==> inferred_type(s, v)
            == first_explicit(s.explicit, v)->0,
        guesses(s, v) ==> inferred_type(s, v) == if starts_uppercase(v.name) {
            TypeView::Matrix(
                Box::new(ExprView::Variable(dimension_variable(v, "rows"@))),
                Box::new(ExprView::Variable(dimension_variable(v, "cols"@))),
            )
        } else if vector_name(v.name) {
            TypeView::Matrix(Box::new(ExprView::Variable(dimension_variable(v, "rows"@))), Box::new(ExprView::NatLiteral(1)))
        } else if natural_name(v.name) {
            TypeView::Nat
        } else {
            TypeView::Real
        },
{
}

/// Whether the type of `v` is guessed: `v` is in no natural position and has
/// no explicit type.
pub open spec fn guesses(s: SpecificationView, v: VariableView) -> bool {
    !s.dimensions.contains(v) && first_explicit(s.explicit, v) is None
}

/// The symbolic type of a free variable: natural in a natural position, its
/// first explicit type otherwise, and its guessed type failing both.
pub open spec fn inferred_type(s: SpecificationView, v: VariableView) -> TypeView {
    if s.dimensions.contains(v) {
        TypeView::Nat
    } else {
        match first_explicit(s.explicit, v) {
            Some(t) => t,
            None => guessed_type(v),
        }
    }
}

/// The dimension variables that guessing the type of `v` introduces.
pub open spec fn generated_dimensions(v: VariableView) -> Set<VariableView> {
    if starts_uppercase(v.name) {
        set![dimension_variable(v, "rows"@), dimension_variable(v, "cols"@)]
    } else if vector_name(v.name) {
        set![dimension_variable(v, "rows"@)]
    } else {
        Set::empty()
    }
}

/// A generated dimension variable whose solver name is that of a free
/// variable of the assumptions.
pub open spec fn collision(s: SpecificationView, g: VariableView) -> bool {
    &&& exists|v: VariableView| s.variables.contains(v) && guesses(s, v) && #[trigger] generated_dimensions(v).contains(g)
    &&& exists|u: VariableView| s.variables.contains(u) && #[trigger] variable_name(u) == variable_name(g)
}

pub open spec fn collision_message(g: VariableView) -> Seq<char> {
    "generated dimension variable collides with user variable "@ + variable_name(g)
}

/// The variable named `<solver name of variable>_{axis}`.
fn dimension_of(variable: &Variable, axis: &str) -> (dimension: Variable)
    ensures
        dimension.view_variable() == dimension_variable(variable.view_variable(), axis@),
{
    let mut name = variable.z3_name();
    name.append("_{");
    name.append(axis);
    name.append("}");
    Variable { name, non_numeric_subscript: String::new(), annotations: Vec::new() }
}

/// Whether the variable's base name is `candidate`.
fn named(variable: &Variable, candidate: &str) -> (same: bool)
    ensures
        same == (variable.name@ == candidate@),
{
    variable.name == String::from_str(candidate)
}

/// The type guessed from a variable's name.
pub fn guessed_type_expr(variable: &Variable) -> (ty: TypeExpr<()>)
    ensures
        type_view(ty) == guessed_type(variable.view_variable()),
{
    let name = variable.name.as_str();
    let uppercase = if name.unicode_len() > 0 {
        let first = name.get_char(0);
        'A' <= first && first <= 'Z'
    } else {
        false
    };
    proof {
        assert(uppercase == starts_uppercase(variable.name@));
    }
    if uppercase {
        let rows = dimension_of(variable, "rows");
        let cols = dimension_of(variable, "cols");
        let ghost rv = rows.view_variable();
        let r: Expr<()> = Expr::new(RawExpr::Variable(rows));
        assert(r@ == ExprView::Variable(rv));
        let ghost cv = cols.view_variable();
        let c: Expr<()> = Expr::new(RawExpr::Variable(cols));
        assert(c@ == ExprView::Variable(cv));
        let ty = TypeExpr::Matrix(r, c);
        assert(type_view(ty) == TypeView::Matrix(Box::new(r@), Box::new(c@)));
        assert(starts_uppercase(variable.view_variable().name));
        ty
    } else if named(variable, "u") || named(variable, "v") || named(variable, "w") || named(variable, "x")
        || named(variable, "y") || named(variable, "z") {
        let rows = dimension_of(variable, "rows");
        let ghost rv = rows.view_variable();
        let r: Expr<()> = Expr::new(RawExpr::Variable(rows));
        let one: Expr<()> = Expr::new(RawExpr::NatLiteral(1));
        assert(r@ == ExprView::Variable(rv));
        assert(one@ == ExprView::NatLiteral(1));
        let ty = TypeExpr::Matrix(r, one);
        assert(type_view(ty) == TypeView::Matrix(Box::new(r@), Box::new(one@)));
        assert(vector_name(variable.view_variable().name));
        ty
    } else if named(variable, "n") || named(variable, "i") || named(variable, "j") || named(variable, "k")
        || named(variable, "l") || named(variable, "m") {
        TypeExpr::Nat
    } else {
        TypeExpr::Real
    }
}

/// The first explicit type given to `variable`, if any.
fn explicit_type_of(explicit: &Vec<(Variable, TypeExpr<()>)>, variable: &Variable) -> (ty: Option<TypeExpr<()>>)
    ensures
        match ty {
            Some(t) => first_explicit(explicit_view(explicit@), variable.view_variable()) == Some(type_view(t)),
            None => first_explicit(explicit_view(explicit@), variable.view_variable()) is None,
        },
{
    let ghost all = explicit_view(explicit@);
    let mut i: usize = 0;
    proof {
        assert(all.subrange(0, all.len() as int) =~= all);
    }
    while i < explicit.len()
        invariant
            i <= explicit.len(),
            all == explicit_view(explicit@),
            all.len() == explicit.len(),
            first_explicit(all, variable.view_variable()) == first_explicit(
                all.subrange(i as int, all.len() as int),
                variable.view_variable(),
            ),
        decreases explicit.len() - i,
    {
        let ghost rest = all.subrange(i as int, all.len() as int);
        proof {
            assert(rest.subrange(1, rest.len() as int) =~= all.subrange(i + 1, all.len() as int));
            assert(rest[0] == all[i as int]);
        }
        let (candidate, ty) = &explicit[i];
        if candidate.same(variable) {
            return Some(ty.duplicate());
        }
        i = i + 1;
    }
    None
}

/// The first declaration of a key of a list without repeated keys is its
/// only one.
proof fn lemma_distinct_declarations(s: Seq<(Variable, TypeExpr<()>)>, i: int)
    requires
        0 <= i < s.len(),
        forall|a: int, b: int| 0 <= a < b < s.len() ==> s[a].0.view_variable() != s[b].0.view_variable(),
    ensures
        first_declaration(s, s[i].0.view_variable()) == Some(type_view(s[i].1)),
    decreases i,
{
    if i > 0 {
        let rest = s.subrange(1, s.len() as int);
        assert(rest[i - 1] == s[i]);
        lemma_distinct_declarations(rest, i - 1);
    }
}

/// A variable that no entry declares has no declaration.
proof fn lemma_absent_declaration(s: Seq<(Variable, TypeExpr<()>)>, v: VariableView)
    requires
        forall|a: int| 0 <= a < s.len() ==> s[a].0.view_variable() != v,
    ensures
        first_declaration(s, v) is None,
    decreases s.len(),
{
    if s.len() > 0 {
        let rest = s.subrange(1, s.len() as int);
        assert forall|a: int| 0 <= a < rest.len() implies rest[a].0.view_variable() != v by {
            assert(rest[a] == s[a + 1]);
        }
        lemma_absent_declaration(rest, v);
    }
}

/// The symbolic type environment of a list of assumptions: each free
/// variable has the type `inferred_type` gives it. The failures of
/// `collect_environment_specification` are reported, and so is a guessed
/// dimension variable whose solver name is that of a free variable.
pub fn infer_symbolic_type_environment(assumptions: &Vec<Expr<()>>) -> (result: Result<SymbolicTypeEnvironment, ShapeError>)
    requires
        !specified(views(assumptions@)).broken,
    ensures
        ({
            let s = specified(views(assumptions@));
            match result {
                Ok(environment) => {
                    &&& s.failure is None
                    &&& forall|g: VariableView| !collision(s, g)
                    &&& forall|v: VariableView| #[trigger] environment.declared_type(v) == if s.variables.contains(v) {
                        Some(inferred_type(s, v))
                    } else {
                        None
                    }
                },
                Err(error) => error is InvalidTyping && match s.failure {
                    Some(message) => error->InvalidTyping_0@ == message,
                    None => exists|g: VariableView| collision(s, g) && error->InvalidTyping_0@ == collision_message(g),
                },
            }
        }),
{
    let specification = match collect_environment_specification(assumptions) {
        Ok(specification) => specification,
        Err(error) => {
            return Err(error);
        },
    };
    let ghost s = specification.view_specification();
    let variables = &specification.variables;
    proof {
        lemma_variable_set(variables@);
    }
    let mut generated: Vec<Variable> = Vec::new();
    let mut types: Vec<(Variable, TypeExpr<()>)> = Vec::new();
    let mut i: usize = 0;
    proof {
        assert(variable_set(generated@) =~= Set::<VariableView>::empty());
    }
    while i < variables.len()
        invariant
            i <= variables.len(),
            s == specification.view_specification(),
            s == specified(views(assumptions@)),
            specification.well_formed(),
            variables == &specification.variables,
            types.len() == i,
            forall|k: int| 0 <= k < i ==> (#[trigger] types@[k]).0.view_variable() == variables@[k].view_variable()
                && type_view(types@[k].1) == inferred_type(s, variables@[k].view_variable()),
            distinct_variables(generated@),
            forall|g: VariableView| variable_set(generated@).contains(g) <==> exists|k: int| 0 <= k < i && guesses(
                s,
                variables@[k].view_variable(),
            ) && #[trigger] generated_dimensions(variables@[k].view_variable()).contains(g),
        decreases variables.len() - i,
    {
        let variable = &variables[i];
        let ghost v = variable.view_variable();
        let ghost before = variable_set(generated@);
        let ty = if crate::operator_visitors::listed(&specification.dimension_variables, variable) {
            proof {
                assert(forall|g: VariableView| #[trigger] variable_set(generated@).contains(g) == before.contains(g));
            }
            TypeExpr::Nat
        } else {
            match explicit_type_of(&specification.explicit_types, variable) {
                Some(t) => t,
                None => {
                    let guessed = guessed_type_expr(variable);
                    proof {
                        lemma_guessed_dimensions(v, variable_set(generated@));
                    }
                    collect_type_dimension_variables(&guessed, &mut generated);
                    proof {
                        assert(variable_set(generated@) =~= before.union(generated_dimensions(v)));
                    }
                    guessed
                },
            }
        };
        let ghost prior = types@;
        types.push((variable.duplicate(), ty));
        proof {
            assert forall|k: int| 0 <= k < i + 1 implies (#[trigger] types@[k]).0.view_variable()
                == variables@[k].view_variable() && type_view(types@[k].1) == inferred_type(
                s,
                variables@[k].view_variable(),
            ) by {
                if k < i {
                    assert(types@[k] == prior[k]);
                }
            }
            assert forall|g: VariableView| variable_set(generated@).contains(g) <==> exists|k: int|
                0 <= k < i + 1 && guesses(s, variables@[k].view_variable()) && #[trigger] generated_dimensions(
                    variables@[k].view_variable(),
                ).contains(g) by {
                if variable_set(generated@).contains(g) && !before.contains(g) {
                    assert(guesses(s, v) && generated_dimensions(v).contains(g));
                    assert(variables@[i as int].view_variable() == v);
                }
            }
        }
        i = i + 1;
    }
    let mut j: usize = 0;
    proof {
        lemma_variable_set(generated@);
    }
    while j < generated.len()
        invariant
            j <= generated.len(),
            s == specification.view_specification(),
            s == specified(views(assumptions@)),
            specification.well_formed(),
            variables == &specification.variables,
            forall|g: VariableView| variable_set(generated@).contains(g) <==> exists|k: int| 0 <= k < variables.len()
                && guesses(s, variables@[k].view_variable()) && #[trigger] generated_dimensions(
                variables@[k].view_variable(),
            ).contains(g),
            forall|k: int| 0 <= k < generated.len() ==> variable_set(generated@).contains(#[trigger] generated@[k].view_variable()),
            forall|k: int| 0 <= k < j ==> !collision(s, #[trigger] generated@[k].view_variable()),
        decreases generated.len() - j,
    {
        let name = generated[j].z3_name();
        let mut u: usize = 0;
        while u < variables.len()
            invariant
                u <= variables.len(),
                j < generated.len(),
                s == specification.view_specification(),
                s == specified(views(assumptions@)),
            s == specified(views(assumptions@)),
                variables == &specification.variables,
                forall|g: VariableView| variable_set(generated@).contains(g) <==> exists|k: int| 0 <= k < variables.len()
                    && guesses(s, variables@[k].view_variable()) && #[trigger] generated_dimensions(
                    variables@[k].view_variable(),
                ).contains(g),
                forall|k: int| 0 <= k < generated.len() ==> variable_set(generated@).contains(#[trigger] generated@[k].view_variable()),
                name@ == variable_name(generated@[j as int].view_variable()),
                forall|k: int| 0 <= k < u ==> variable_name(#[trigger] variables@[k].view_variable()) != name@,
            decreases variables.len() - u,
        {
            if variables[u].z3_name() == name {
                let mut message = String::from_str("generated dimension variable collides with user variable ");
                message.append(name.as_str());
                proof {
                    lemma_variable_set(variables@);
                    let g = generated@[j as int].view_variable();
                    assert(variable_set(generated@).contains(g));
                    let k = choose|k: int| 0 <= k < variables.len() && guesses(s, variables@[k].view_variable())
                        && #[trigger] generated_dimensions(variables@[k].view_variable()).contains(g);
                    assert(s.variables.contains(variables@[k].view_variable()));
                    assert(s.variables.contains(variables@[u as int].view_variable()));
                    assert(collision(s, g));
                    assert(message@ == collision_message(g));
                }
                return Err(ShapeError::InvalidTyping(message));
            }
            u = u + 1;
        }
        proof {
            lemma_variable_set(variables@);
            let g = generated@[j as int].view_variable();
            if collision(s, g) {
                let w = choose|w: VariableView| s.variables.contains(w) && #[trigger] variable_name(w) == variable_name(g);
                let k = choose|k: int| 0 <= k < variables.len() && variables@[k].view_variable() == w;
                assert(variable_name(variables@[k].view_variable()) != name@);
            }
        }
        j = j + 1;
    }
    proof {
        lemma_variable_set(variables@);
        lemma_variable_set(generated@);
        assert forall|g: VariableView| !collision(s, g) by {
            if collision(s, g) {
                let v = choose|v: VariableView| s.variables.contains(v) && guesses(s, v) && #[trigger] generated_dimensions(v).contains(g);
                let k = choose|k: int| 0 <= k < variables.len() && variables@[k].view_variable() == v;
                assert(variable_set(generated@).contains(g));
                let m = choose|m: int| 0 <= m < generated.len() && generated@[m].view_variable() == g;
                assert(!collision(s, generated@[m].view_variable()));
            }
        }
    }
    let environment = SymbolicTypeEnvironment { types };
    proof {
        lemma_variable_set(variables@);
        assert forall|v: VariableView| #[trigger] environment.declared_type(v) == if s.variables.contains(v) {
            Some(inferred_type(s, v))
        } else {
            None
        } by {
            if s.variables.contains(v) {
                let k = choose|k: int| 0 <= k < variables.len() && variables@[k].view_variable() == v;
                lemma_distinct_declarations(environment.types@, k);
            } else {
                assert forall|a: int| 0 <= a < environment.types@.len() implies environment.types@[a].0.view_variable()
                    != v by {
                    assert(s.variables.contains(variables@[a].view_variable()));
                }
                lemma_absent_declaration(environment.types@, v);
            }
        }
    }
    Ok(environment)
}

/// Guessing a type adds exactly its generated dimension variables, with no
/// collision on the way.
proof fn lemma_guessed_dimensions(v: VariableView, found: Set<VariableView>)
    ensures
        !type_dimensions(guessed_type(v), DimensionWalk { variables: found, broken: false }).broken,
        type_dimensions(guessed_type(v), DimensionWalk { variables: found, broken: false }).variables
            == found.union(generated_dimensions(v)),
{
    let rows = dimension_variable(v, "rows"@);
    let cols = dimension_variable(v, "cols"@);
    let w = DimensionWalk { variables: found, broken: false };
    if starts_uppercase(v.name) {
        let after_rows = absorbed(ExprView::Variable(rows), w);
        assert(after_rows.variables == found.insert(rows));
        assert(absorbed(ExprView::Variable(cols), after_rows).variables == found.insert(rows).insert(cols));
        assert(found.insert(rows).insert(cols) =~= found.union(generated_dimensions(v)));
    } else if vector_name(v.name) {
        let after_rows = absorbed(ExprView::Variable(rows), w);
        assert(after_rows.variables == found.insert(rows));
        assert(absorbed(ExprView::NatLiteral(1), after_rows) == after_rows);
        assert(found.insert(rows) =~= found.union(generated_dimensions(v)));
    } else {
        assert(found =~= found.union(generated_dimensions(v)));
    }
}

} // verus!
