//! Lowering of logic chains: `P \iff Q \implies R` becomes the conjunction
//! of the single implications it asserts between neighbours.
use vstd::prelude::*;

use crate::context::VisitContext;
use crate::view::{
    comparison_views, lemma_comparison_views, lemma_logic_views, lemma_views, logic_views, type_view, views,
    ExprView, TypeView, VariableView,
};
use crate::{Cmp, CmpChain, Expr, Finop, Logic, LogicChain, Matrix, Range, RawExpr, TypeExpr, Variable};

verus! {

/// Whether a chain is lowered: all but the empty chain and the single
/// implication.
pub open spec fn chain_lowerable(links: Seq<(Logic, ExprView)>) -> bool {
    !(links.len() == 0 || (links.len() == 1 && links[0].0 == Logic::Imp))
}

/// The chain asserting the single implication `a \implies c`.
pub open spec fn implication(a: ExprView, c: ExprView) -> ExprView {
    ExprView::LogicChain(Box::new(a), seq![(Logic::Imp, c)])
}

/// The single implications a chain asserts, in order: one per `\implies`
/// link and one in each direction per `\iff` link, between the link's
/// neighbours.
pub open spec fn implications(start: ExprView, links: Seq<(Logic, ExprView)>) -> Seq<ExprView>
    decreases links.len(),
{
    if links.len() == 0 {
        Seq::empty()
    } else {
        let antecedent = if links.len() == 1 { start } else { links[links.len() - 2].1 };
        let consequent = links.last().1;
        implications(start, links.drop_last()) + match links.last().0 {
            Logic::Imp => seq![implication(antecedent, consequent)],
            Logic::Iff => seq![implication(antecedent, consequent), implication(consequent, antecedent)],
        }
    }
}

/// The tree with every lowerable logic chain replaced by the conjunction of its implications.
pub open spec fn lowered(e: ExprView) -> ExprView
    decreases e, 0nat,
{
    match e {
        ExprView::LogicChain(start, links) => if chain_lowerable(links) { ExprView::Finop(Finop::And, implications(lowered(*start), lowered_links(links))) } else { ExprView::LogicChain(Box::new(lowered(*start)), lowered_links(links)) },
        ExprView::StandardBasis(index, d) => ExprView::StandardBasis(Box::new(lowered(*index)), d),
        ExprView::Type(t) => ExprView::Type(lowered_type(t)),
        ExprView::Matrix(rows, cols, elements) => ExprView::Matrix(rows, cols, lowered_seq(elements)),
        ExprView::Monop(op, x) => ExprView::Monop(op, Box::new(lowered(*x))),
        ExprView::Binop(op, x, y) => ExprView::Binop(op, Box::new(lowered(*x)), Box::new(lowered(*y))),
        ExprView::Triop(op, x, y, z) => ExprView::Triop(op, Box::new(lowered(*x)), Box::new(lowered(*y)), Box::new(lowered(*z))),
        ExprView::Finop(op, operands) => ExprView::Finop(op, lowered_seq(operands)),
        ExprView::CmpChain(start, links) => ExprView::CmpChain(Box::new(lowered(*start)), lowered_links(links)),
        ExprView::Seqop(op, bv, from, to, body) => ExprView::Seqop(op, bv, Box::new(lowered(*from)), Box::new(lowered(*to)), Box::new(lowered(*body))),
        ExprView::SetComprehension(bv, domain, predicate) => ExprView::SetComprehension(bv, lowered_type(domain), Box::new(lowered(*predicate))),
        _ => e,
    }
}

/// `lowered` over the dimension expressions of a type.
pub open spec fn lowered_type(t: TypeView) -> TypeView
    decreases t, 0nat,
{
    match t {
        TypeView::Matrix(x, y) => TypeView::Matrix(Box::new(lowered(*x)), Box::new(lowered(*y))),
        TypeView::Sequence(x, y) => TypeView::Sequence(Box::new(lowered(*x)), Box::new(lowered(*y))),
        TypeView::SetOf(inner) => TypeView::SetOf(Box::new(lowered_type(*inner))),
        _ => t,
    }
}

/// `lowered` over a list of trees.
pub open spec fn lowered_seq(s: Seq<ExprView>) -> Seq<ExprView>
    decreases s, 1nat,
{
    if s.len() == 0 {
        s
    } else {
        lowered_seq(s.drop_last()).push(lowered(s.last()))
    }
}

/// `lowered` over the trees of a list of links.
pub open spec fn lowered_links<O>(s: Seq<(O, ExprView)>) -> Seq<(O, ExprView)>
    decreases s, 1nat,
{
    if s.len() == 0 {
        s
    } else {
        lowered_links(s.drop_last()).push((s.last().0, lowered(s.last().1)))
    }
}

/// Lowers the logic chains of a tree.
#[verifier::rlimit(100)]
#[verifier::spinoff_prover]
pub fn lower<Metadata: Clone>(expression: &Expr<Metadata>) -> (result: Expr<Metadata>)
    ensures
        result@ == lowered(expression@),
    decreases *expression, 0nat,
{
    let raw = match expression.raw() {
        RawExpr::LogicChain(chain) => {
            let start = lower(&chain.start);
            let links = lower_logic(&chain.assertions);
            proof {
                lemma_lowered_links_shape(logic_views(chain.assertions@));
            }
            if chain_lowerable_exec(&links) {
                RawExpr::Finop(Finop::And, implication_list(expression.meta(), start, &links))
            } else {
                RawExpr::LogicChain(LogicChain { start, assertions: links })
            }
        },
        RawExpr::StandardBasis { index, dimension } => RawExpr::StandardBasis { index: lower(index), dimension: *dimension },
        RawExpr::Type(ty) => RawExpr::Type(lower_type(ty)),
        RawExpr::Matrix(matrix) => RawExpr::Matrix(Matrix { rows: matrix.rows, cols: matrix.cols, elements: lower_list(&matrix.elements) }),
        RawExpr::Monop(op, x) => RawExpr::Monop(*op, lower(x)),
        RawExpr::Binop(op, x, y) => RawExpr::Binop(*op, lower(x), lower(y)),
        RawExpr::Triop(op, x, y, z) => RawExpr::Triop(*op, lower(x), lower(y), lower(z)),
        RawExpr::Finop(op, operands) => RawExpr::Finop(*op, lower_list(operands)),
        RawExpr::CmpChain(chain) => {
            RawExpr::CmpChain(CmpChain { start: lower(&chain.start), assertions: lower_comparisons(&chain.assertions) })
        },
        RawExpr::Seqop(op, range, body) => RawExpr::Seqop(*op, Range { index_variable: range.index_variable.duplicate(), from: lower(&range.from), to: lower(&range.to) }, lower(body)),
        RawExpr::SetComprehension { variable: bound_variable, domain, predicate } => RawExpr::SetComprehension { variable: bound_variable.duplicate(), domain: lower_type(domain), predicate: lower(predicate) },
        _ => {
            return crate::deep_clone::deep_clone(expression);
        },
    };
    Expr::with_metadata(expression.meta().clone(), raw)
}

/// `lower` over the dimension expressions of a type.
pub fn lower_type<Metadata: Clone>(ty: &TypeExpr<Metadata>) -> (result: TypeExpr<Metadata>)
    ensures
        type_view(result) == lowered_type(type_view(*ty)),
    decreases *ty, 0nat,
{
    match ty {
        TypeExpr::Matrix(x, y) => TypeExpr::Matrix(lower(x), lower(y)),
        TypeExpr::Sequence(x, y) => TypeExpr::Sequence(lower(x), lower(y)),
        TypeExpr::SetOf(inner) => {
            let inner: &TypeExpr<Metadata> = inner;
            TypeExpr::SetOf(Box::new(lower_type(inner)))
        },
        TypeExpr::Bool => TypeExpr::Bool,
        TypeExpr::Nat => TypeExpr::Nat,
        TypeExpr::Int => TypeExpr::Int,
        TypeExpr::Real => TypeExpr::Real,
    }
}

/// `lower` over a list of trees.
pub fn lower_list<Metadata: Clone>(expressions: &Vec<Expr<Metadata>>) -> (result: Vec<Expr<Metadata>>)
    ensures
        views(result@) == lowered_seq(views(expressions@)),
    decreases expressions@, 0nat,
{
    let ghost all = views(expressions@);
    proof {
        lemma_views(expressions@);
    }
    let mut result: Vec<Expr<Metadata>> = Vec::new();
    let mut i: usize = 0;
    while i < expressions.len()
        invariant
            i <= expressions.len(),
            all == views(expressions@),
            all.len() == expressions.len(),
            forall|j: int| 0 <= j < expressions.len() ==> #[trigger] all[j] == expressions@[j]@,
            views(result@) == lowered_seq(all.take(i as int)),
        decreases expressions.len() - i,
    {
        proof {
            assert(all.take(i + 1).drop_last() =~= all.take(i as int));
            assert(decreases_to!(expressions@ => expressions@[i as int]));
        }
        let ghost before = result@;
        result.push(lower(&expressions[i]));
        proof {
            assert(result@.drop_last() =~= before);
        }
        i = i + 1;
    }
    proof {
        assert(all.take(expressions.len() as int) =~= all);
    }
    result
}

/// `lower` over the trees of a list of links.
pub fn lower_comparisons<Metadata: Clone>(links: &Vec<(Cmp, Expr<Metadata>)>) -> (result: Vec<(Cmp, Expr<Metadata>)>)
    ensures
        comparison_views(result@) == lowered_links(comparison_views(links@)),
    decreases links@, 0nat,
{
    let ghost all = comparison_views(links@);
    proof {
        lemma_comparison_views(links@);
    }
    let mut result: Vec<(Cmp, Expr<Metadata>)> = Vec::new();
    let mut i: usize = 0;
    while i < links.len()
        invariant
            i <= links.len(),
            all == comparison_views(links@),
            all.len() == links.len(),
            forall|j: int| 0 <= j < links.len() ==> #[trigger] all[j] == (links@[j].0, links@[j].1@),
            comparison_views(result@) == lowered_links(all.take(i as int)),
        decreases links.len() - i,
    {
        proof {
            assert(all.take(i + 1).drop_last() =~= all.take(i as int));
            assert(decreases_to!(links@ => links@[i as int]));
        }
        let ghost before = result@;
        let (op, x) = &links[i];
        result.push((*op, lower(x)));
        proof {
            assert(result@.drop_last() =~= before);
        }
        i = i + 1;
    }
    proof {
        assert(all.take(links.len() as int) =~= all);
    }
    result
}

/// `lower` over the trees of a list of links.
pub fn lower_logic<Metadata: Clone>(links: &Vec<(Logic, Expr<Metadata>)>) -> (result: Vec<(Logic, Expr<Metadata>)>)
    ensures
        logic_views(result@) == lowered_links(logic_views(links@)),
    decreases links@, 0nat,
{
    let ghost all = logic_views(links@);
    proof {
        lemma_logic_views(links@);
    }
    let mut result: Vec<(Logic, Expr<Metadata>)> = Vec::new();
    let mut i: usize = 0;
    while i < links.len()
        invariant
            i <= links.len(),
            all == logic_views(links@),
            all.len() == links.len(),
            forall|j: int| 0 <= j < links.len() ==> #[trigger] all[j] == (links@[j].0, links@[j].1@),
            logic_views(result@) == lowered_links(all.take(i as int)),
        decreases links.len() - i,
    {
        proof {
            assert(all.take(i + 1).drop_last() =~= all.take(i as int));
            assert(decreases_to!(links@ => links@[i as int]));
        }
        let ghost before = result@;
        let (op, x) = &links[i];
        result.push((*op, lower(x)));
        proof {
            assert(result@.drop_last() =~= before);
        }
        i = i + 1;
    }
    proof {
        assert(all.take(links.len() as int) =~= all);
    }
    result
}

/// Lowering keeps the operators and the number of the links of a chain.
pub proof fn lemma_lowered_links_shape<O>(s: Seq<(O, ExprView)>)
    ensures
        lowered_links(s).len() == s.len(),
        forall|i: int| 0 <= i < s.len() ==> #[trigger] lowered_links(s)[i].0 == s[i].0,
    decreases s.len(),
{
    if s.len() > 0 {
        lemma_lowered_links_shape(s.drop_last());
    }
}
fn chain_lowerable_exec<Metadata>(links: &Vec<(Logic, Expr<Metadata>)>) -> (lowerable: bool)
    ensures
        lowerable == chain_lowerable(logic_views(links@)),
{
    proof {
        lemma_logic_views(links@);
    }
    if links.len() == 0 {
        false
    } else if links.len() == 1 {
        match links[0].0 {
            Logic::Imp => false,
            Logic::Iff => true,
        }
    } else {
        true
    }
}

fn implication_node<Metadata: Clone>(meta: &Metadata, antecedent: &Expr<Metadata>, consequent: &Expr<Metadata>) -> (e: Expr<Metadata>)
    ensures
        e@ == implication(antecedent@, consequent@),
{
    let mut assertions: Vec<(Logic, Expr<Metadata>)> = Vec::new();
    assertions.push((Logic::Imp, consequent.share()));
    proof {
        lemma_logic_views(assertions@);
        assert(logic_views(assertions@) =~= seq![(Logic::Imp, consequent@)]);
    }
    Expr::with_metadata(meta.clone(), RawExpr::LogicChain(LogicChain { start: antecedent.share(), assertions }))
}

/// The implications of a chain with the given start and links, each node
/// carrying a clone of `meta`.
fn implication_list<Metadata: Clone>(meta: &Metadata, start: Expr<Metadata>, links: &Vec<(Logic, Expr<Metadata>)>) -> (list: Vec<Expr<Metadata>>)
    ensures
        views(list@) == implications(start@, logic_views(links@)),
{
    let ghost all = logic_views(links@);
    proof {
        lemma_logic_views(links@);
    }
    let mut list: Vec<Expr<Metadata>> = Vec::new();
    let mut antecedent = start;
    let mut i: usize = 0;
    while i < links.len()
        invariant
            i <= links.len(),
            all == logic_views(links@),
            all.len() == links.len(),
            forall|j: int| 0 <= j < links.len() ==> #[trigger] all[j] == (links@[j].0, links@[j].1@),
            views(list@) == implications(start@, all.take(i as int)),
            antecedent@ == if i == 0 { start@ } else { all[i - 1].1 },
        decreases links.len() - i,
    {
        proof {
            assert(all.take(i + 1).drop_last() =~= all.take(i as int));
            lemma_views(list@);
        }
        let (op, consequent) = &links[i];
        let ghost before = views(list@);
        list.push(implication_node(meta, &antecedent, consequent));
        match op {
            Logic::Imp => {},
            Logic::Iff => {
                list.push(implication_node(meta, consequent, &antecedent));
            },
        }
        proof {
            lemma_views(list@);
            assert(views(list@) =~= implications(start@, all.take(i + 1)));
        }
        antecedent = consequent.share();
        i = i + 1;
    }
    proof {
        assert(all.take(links.len() as int) =~= all);
    }
    list
}

/// Rewrites adjacency-based logic chains into conjunctions of single
/// implications.
pub struct LogicLowering;

impl LogicLowering {
    /// Lowers every logic chain of the expression.
    pub fn visit_expr_mut<Metadata: Clone>(&mut self, _context: VisitContext, node: &mut Expr<Metadata>)
        ensures
            final(node)@ == lowered(old(node)@),
    {
        *node = lower(node);
    }
}

/// Whether no logic chain of the tree is lowerable: each one is empty or a
/// single implication.
pub open spec fn lowering_normal(e: ExprView) -> bool
    decreases e, 0nat,
{
    match e {
        ExprView::LogicChain(start, links) => !chain_lowerable(links) && lowering_normal(*start) && lowering_normal_links(links),
        ExprView::StandardBasis(index, _) => lowering_normal(*index),
        ExprView::Type(t) => lowering_normal_type(t),
        ExprView::Matrix(_, _, elements) => lowering_normal_seq(elements),
        ExprView::Monop(_, x) => lowering_normal(*x),
        ExprView::Binop(_, x, y) => lowering_normal(*x) && lowering_normal(*y),
        ExprView::Triop(_, x, y, z) => lowering_normal(*x) && lowering_normal(*y) && lowering_normal(*z),
        ExprView::Finop(_, operands) => lowering_normal_seq(operands),
        ExprView::CmpChain(start, links) => lowering_normal(*start) && lowering_normal_links(links),
        ExprView::Seqop(_, _, from, to, body) => lowering_normal(*from) && lowering_normal(*to) && lowering_normal(*body),
        ExprView::SetComprehension(_, domain, predicate) => lowering_normal_type(domain) && lowering_normal(*predicate),
        _ => true,
    }
}

/// `lowering_normal` over the dimension expressions of a type.
pub open spec fn lowering_normal_type(t: TypeView) -> bool
    decreases t, 0nat,
{
    match t {
        TypeView::Matrix(x, y) => lowering_normal(*x) && lowering_normal(*y),
        TypeView::Sequence(x, y) => lowering_normal(*x) && lowering_normal(*y),
        TypeView::SetOf(inner) => lowering_normal_type(*inner),
        _ => true,
    }
}

/// `lowering_normal` over a list of trees.
pub open spec fn lowering_normal_seq(s: Seq<ExprView>) -> bool
    decreases s, 1nat,
{
    if s.len() == 0 {
        true
    } else {
        lowering_normal_seq(s.drop_last()) && lowering_normal(s.last())
    }
}

/// `lowering_normal` over the trees of a list of links.
pub open spec fn lowering_normal_links<O>(s: Seq<(O, ExprView)>) -> bool
    decreases s, 1nat,
{
    if s.len() == 0 {
        true
    } else {
        lowering_normal_links(s.drop_last()) && lowering_normal(s.last().1)
    }
}

/// The implications of a chain whose operands are normal are normal.
proof fn lemma_implications_normal(start: ExprView, links: Seq<(Logic, ExprView)>)
    requires
        lowering_normal(start),
        lowering_normal_links(links),
    ensures
        lowering_normal_seq(implications(start, links)),
    decreases links.len(),
{
    if links.len() > 0 {
        let rest = links.drop_last();
        lemma_implications_normal(start, rest);
        let antecedent = if links.len() == 1 { start } else { links[links.len() - 2].1 };
        let consequent = links.last().1;
        assert(lowering_normal(consequent));
        assert(lowering_normal_links(rest));
        if links.len() > 1 {
            assert(rest.last() == links[links.len() - 2]);
            assert(lowering_normal(rest.last().1));
        }
        assert(lowering_normal(antecedent));
        let forward = implication(antecedent, consequent);
        let backward = implication(consequent, antecedent);
        assert(seq![(Logic::Imp, consequent)].drop_last() =~= Seq::<(Logic, ExprView)>::empty());
        assert(seq![(Logic::Imp, antecedent)].drop_last() =~= Seq::<(Logic, ExprView)>::empty());
        assert(lowering_normal_links(seq![(Logic::Imp, consequent)].drop_last()));
        assert(lowering_normal_links(seq![(Logic::Imp, antecedent)].drop_last()));
        assert(lowering_normal_links(seq![(Logic::Imp, consequent)]));
        assert(lowering_normal_links(seq![(Logic::Imp, antecedent)]));
        assert(lowering_normal(forward));
        assert(lowering_normal(backward));
        let earlier = implications(start, rest);
        match links.last().0 {
            Logic::Imp => {
                let all = earlier + seq![forward];
                assert(implications(start, links) == all);
                assert(all.drop_last() =~= earlier);
                assert(all.last() == forward);
                assert(lowering_normal_seq(all));
            },
            Logic::Iff => {
                let mid = earlier + seq![forward];
                let both = earlier + seq![forward, backward];
                assert(implications(start, links) == both);
                assert(mid.drop_last() =~= earlier);
                assert(mid.last() == forward);
                assert(lowering_normal_seq(mid));
                assert(both.drop_last() =~= mid);
                assert(both.last() == backward);
                assert(lowering_normal_seq(both));
            },
        }
    }
}

/// Lowering leaves a normal tree.
proof fn lemma_lowered_normal(e: ExprView)
    ensures
        lowering_normal(lowered(e)),
    decreases e, 0nat,
{
    match e {
        ExprView::LogicChain(start, links) => {
            lemma_lowered_normal(*start);
            lemma_lowered_links_normal(links);
            if chain_lowerable(links) {
                lemma_implications_normal(lowered(*start), lowered_links(links));
            } else {
                lemma_lowered_links_shape(links);
            }
        },
        ExprView::StandardBasis(index, _) => lemma_lowered_normal(*index),
        ExprView::Type(t) => lemma_lowered_type_normal(t),
        ExprView::Matrix(_, _, elements) => lemma_lowered_seq_normal(elements),
        ExprView::Monop(_, x) => lemma_lowered_normal(*x),
        ExprView::Binop(_, x, y) => {
            lemma_lowered_normal(*x);
            lemma_lowered_normal(*y);
        },
        ExprView::Triop(_, x, y, z) => {
            lemma_lowered_normal(*x);
            lemma_lowered_normal(*y);
            lemma_lowered_normal(*z);
        },
        ExprView::Finop(_, operands) => lemma_lowered_seq_normal(operands),
        ExprView::CmpChain(start, links) => {
            lemma_lowered_normal(*start);
            lemma_lowered_links_normal(links);
        },
        ExprView::Seqop(_, _, from, to, body) => {
            lemma_lowered_normal(*from);
            lemma_lowered_normal(*to);
            lemma_lowered_normal(*body);
        },
        ExprView::SetComprehension(_, domain, predicate) => {
            lemma_lowered_type_normal(domain);
            lemma_lowered_normal(*predicate);
        },
        _ => {},
    }
}

proof fn lemma_lowered_type_normal(t: TypeView)
    ensures
        lowering_normal_type(lowered_type(t)),
    decreases t, 0nat,
{
    match t {
        TypeView::Matrix(x, y) => {
            lemma_lowered_normal(*x);
            lemma_lowered_normal(*y);
        },
        TypeView::Sequence(x, y) => {
            lemma_lowered_normal(*x);
            lemma_lowered_normal(*y);
        },
        TypeView::SetOf(inner) => lemma_lowered_type_normal(*inner),
        _ => {},
    }
}

proof fn lemma_lowered_seq_normal(s: Seq<ExprView>)
    ensures
        lowering_normal_seq(lowered_seq(s)),
    decreases s, 1nat,
{
    if s.len() > 0 {
        lemma_lowered_seq_normal(s.drop_last());
        lemma_lowered_normal(s.last());
        assert(lowered_seq(s).drop_last() =~= lowered_seq(s.drop_last()));
    }
}

proof fn lemma_lowered_links_normal<O>(s: Seq<(O, ExprView)>)
    ensures
        lowering_normal_links(lowered_links(s)),
    decreases s, 1nat,
{
    if s.len() > 0 {
        lemma_lowered_links_normal(s.drop_last());
        lemma_lowered_normal(s.last().1);
        assert(lowered_links(s).drop_last() =~= lowered_links(s.drop_last()));
    }
}

/// Lowering changes nothing in a normal tree.
proof fn lemma_normal_unchanged(e: ExprView)
    requires
        lowering_normal(e),
    ensures
        lowered(e) == e,
    decreases e, 0nat,
{
    match e {
        ExprView::LogicChain(start, links) => {
            lemma_normal_unchanged(*start);
            lemma_normal_links_unchanged(links);
        },
        ExprView::StandardBasis(index, _) => lemma_normal_unchanged(*index),
        ExprView::Type(t) => lemma_normal_type_unchanged(t),
        ExprView::Matrix(_, _, elements) => lemma_normal_seq_unchanged(elements),
        ExprView::Monop(_, x) => lemma_normal_unchanged(*x),
        ExprView::Binop(_, x, y) => {
            lemma_normal_unchanged(*x);
            lemma_normal_unchanged(*y);
        },
        ExprView::Triop(_, x, y, z) => {
            lemma_normal_unchanged(*x);
            lemma_normal_unchanged(*y);
            lemma_normal_unchanged(*z);
        },
        ExprView::Finop(_, operands) => lemma_normal_seq_unchanged(operands),
        ExprView::CmpChain(start, links) => {
            lemma_normal_unchanged(*start);
            lemma_normal_links_unchanged(links);
        },
        ExprView::Seqop(_, _, from, to, body) => {
            lemma_normal_unchanged(*from);
            lemma_normal_unchanged(*to);
            lemma_normal_unchanged(*body);
        },
        ExprView::SetComprehension(_, domain, predicate) => {
            lemma_normal_type_unchanged(domain);
            lemma_normal_unchanged(*predicate);
        },
        _ => {},
    }
}

proof fn lemma_normal_type_unchanged(t: TypeView)
    requires
        lowering_normal_type(t),
    ensures
        lowered_type(t) == t,
    decreases t, 0nat,
{
    match t {
        TypeView::Matrix(x, y) => {
            lemma_normal_unchanged(*x);
            lemma_normal_unchanged(*y);
        },
        TypeView::Sequence(x, y) => {
            lemma_normal_unchanged(*x);
            lemma_normal_unchanged(*y);
        },
        TypeView::SetOf(inner) => lemma_normal_type_unchanged(*inner),
        _ => {},
    }
}

proof fn lemma_normal_seq_unchanged(s: Seq<ExprView>)
    requires
        lowering_normal_seq(s),
    ensures
        lowered_seq(s) == s,
    decreases s, 1nat,
{
    if s.len() > 0 {
        lemma_normal_seq_unchanged(s.drop_last());
        lemma_normal_unchanged(s.last());
        assert(lowered_seq(s) =~= s);
    }
}

proof fn lemma_normal_links_unchanged<O>(s: Seq<(O, ExprView)>)
    requires
        lowering_normal_links(s),
    ensures
        lowered_links(s) == s,
    decreases s, 1nat,
{
    if s.len() > 0 {
        lemma_normal_links_unchanged(s.drop_last());
        lemma_normal_unchanged(s.last().1);
        assert(lowered_links(s) =~= s);
    }
}

/// After lowering, every logic chain of the tree is empty or a single
/// implication.
pub proof fn law_lowered_chains_are_single_implications(e: ExprView)
    ensures
        lowering_normal(lowered(e)),
{
    lemma_lowered_normal(e);
}

/// Lowering is idempotent: lowering a lowered tree changes nothing.
pub proof fn law_lowering_is_idempotent(e: ExprView)
    ensures
        lowered(lowered(e)) == lowered(e),
{
    lemma_lowered_normal(e);
    lemma_normal_unchanged(lowered(e));
}

/// The member of a chain at position `i`: the start, then each link's operand.
pub open spec fn chain_member(start: ExprView, links: Seq<(Logic, ExprView)>, i: int) -> ExprView {
    if i == 0 {
        start
    } else {
        links[i - 1].1
    }
}

/// Whether a link relates the truth values of its two neighbours as it says.
pub open spec fn link_holds(op: Logic, a: bool, c: bool) -> bool {
    match op {
        Logic::Imp => a ==> c,
        Logic::Iff => a == c,
    }
}

/// Whether link `i` of a chain relates the truth values of its neighbours
/// as it says.
pub open spec fn link_at_holds(start: ExprView, links: Seq<(Logic, ExprView)>, truth: spec_fn(ExprView) -> bool, i: int) -> bool {
    link_holds(links[i].0, truth(chain_member(start, links, i)), truth(links[i].1))
}

/// Whether a chain holds when each member has the truth value `truth` gives
/// it: every link holds between its neighbours.
pub open spec fn chain_holds(start: ExprView, links: Seq<(Logic, ExprView)>, truth: spec_fn(ExprView) -> bool) -> bool {
    forall|i: int| 0 <= i < links.len() ==> #[trigger] link_at_holds(start, links, truth, i)
}

/// Whether `e` is a single implication that holds under `truth`.
pub open spec fn implication_holds(e: ExprView, truth: spec_fn(ExprView) -> bool) -> bool {
    match e {
        ExprView::LogicChain(a, l) => l.len() == 1 && l[0].0 == Logic::Imp && (truth(*a) ==> truth(l[0].1)),
        _ => false,
    }
}

/// Whether every tree of the list is a single implication holding under `truth`.
pub open spec fn implications_hold(es: Seq<ExprView>, truth: spec_fn(ExprView) -> bool) -> bool {
    forall|j: int| 0 <= j < es.len() ==> implication_holds(#[trigger] es[j], truth)
}

/// The number of `\iff` links of a chain.
pub open spec fn equivalence_links(links: Seq<(Logic, ExprView)>) -> nat
    decreases links.len(),
{
    if links.len() == 0 {
        0
    } else {
        equivalence_links(links.drop_last()) + if links.last().0 == Logic::Iff {
            1nat
        } else {
            0nat
        }
    }
}

/// The implications of a concatenation hold when those of both parts hold.
proof fn lemma_implications_hold_concat(earlier: Seq<ExprView>, added: Seq<ExprView>, truth: spec_fn(ExprView) -> bool)
    ensures
        implications_hold(earlier + added, truth) == (implications_hold(earlier, truth) && implications_hold(
            added,
            truth,
        )),
{
    let all = earlier + added;
    if implications_hold(all, truth) {
        assert forall|j: int| 0 <= j < earlier.len() implies implication_holds(#[trigger] earlier[j], truth) by {
            assert(all[j] == earlier[j]);
        }
        assert forall|j: int| 0 <= j < added.len() implies implication_holds(#[trigger] added[j], truth) by {
            assert(all[earlier.len() + j] == added[j]);
        }
    }
    if implications_hold(earlier, truth) && implications_hold(added, truth) {
        assert forall|j: int| 0 <= j < all.len() implies implication_holds(#[trigger] all[j], truth) by {
            if j < earlier.len() {
                assert(all[j] == earlier[j]);
            } else {
                assert(all[j] == added[j - earlier.len()]);
            }
        }
    }
}

/// A chain holds when its prefix holds and its last link holds.
proof fn lemma_chain_holds_last(start: ExprView, links: Seq<(Logic, ExprView)>, truth: spec_fn(ExprView) -> bool)
    requires
        links.len() > 0,
    ensures
        chain_holds(start, links, truth) == (chain_holds(start, links.drop_last(), truth) && link_at_holds(
            start,
            links,
            truth,
            links.len() - 1,
        )),
{
    let prior = links.drop_last();
    let n = links.len() - 1;
    assert forall|i: int| 0 <= i < prior.len() implies #[trigger] link_at_holds(start, prior, truth, i)
        == link_at_holds(start, links, truth, i) by {
        assert(prior[i] == links[i]);
        if i > 0 {
            assert(prior[i - 1] == links[i - 1]);
        }
    }
    if chain_holds(start, links, truth) {
        assert forall|i: int| 0 <= i < prior.len() implies #[trigger] link_at_holds(start, prior, truth, i) by {
            assert(link_at_holds(start, links, truth, i));
        }
        assert(link_at_holds(start, links, truth, n));
    }
    if chain_holds(start, prior, truth) && link_at_holds(start, links, truth, n) {
        assert forall|i: int| 0 <= i < links.len() implies #[trigger] link_at_holds(start, links, truth, i) by {
            if i < n {
                assert(link_at_holds(start, prior, truth, i));
            }
        }
    }
}

/// Lowering keeps a chain's meaning: whatever truth values its members
/// take, the implications it is lowered to all hold exactly when every link
/// of the chain holds; there is one implication per `\implies` link and two
/// per `\iff` link.
pub proof fn law_lowered_chain_means_the_chain(
    start: ExprView,
    links: Seq<(Logic, ExprView)>,
    truth: spec_fn(ExprView) -> bool,
)
    ensures
        implications_hold(implications(start, links), truth) <==> chain_holds(start, links, truth),
        implications(start, links).len() == links.len() + equivalence_links(links),
    decreases links.len(),
{
    if links.len() > 0 {
        let prior = links.drop_last();
        law_lowered_chain_means_the_chain(start, prior, truth);
        let n = links.len() - 1;
        let antecedent = if links.len() == 1 { start } else { links[links.len() - 2].1 };
        let consequent = links.last().1;
        assert(antecedent == chain_member(start, links, n));
        let earlier = implications(start, prior);
        let added = match links.last().0 {
            Logic::Imp => seq![implication(antecedent, consequent)],
            Logic::Iff => seq![implication(antecedent, consequent), implication(consequent, antecedent)],
        };
        assert(implications(start, links) == earlier + added);
        assert(implications_hold(added, truth) == link_at_holds(start, links, truth, n)) by {
            assert(implication_holds(implication(antecedent, consequent), truth) == (truth(antecedent) ==> truth(
                consequent,
            )));
            assert(implication_holds(implication(consequent, antecedent), truth) == (truth(consequent) ==> truth(
                antecedent,
            )));
            if implications_hold(added, truth) {
                assert(implication_holds(added[0], truth));
                if added.len() == 2 {
                    assert(implication_holds(added[1], truth));
                }
            }
        }
        lemma_implications_hold_concat(earlier, added, truth);
        lemma_chain_holds_last(start, links, truth);
    }
}

} // verus!
