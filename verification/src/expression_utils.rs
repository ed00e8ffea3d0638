//! Counting, searching and hole manipulation over expression trees.
//!
//! Nodes are numbered in preorder: the root is node 0, then the nodes of each
//! child in turn. The children of a node are its subexpressions in field
//! order, including the dimension expressions of a type.
use vstd::prelude::*;

use crate::deep_clone::deep_clone;
use crate::view::{
    comparison_views, lemma_comparison_views, lemma_logic_views, lemma_views, logic_views,
    type_view, views, ExprView, TypeView, VariableView,
};
use crate::{Cmp, CmpChain, Expr, Logic, LogicChain, Matrix, Range, RawExpr, TypeExpr, Variable};

verus! {

// ---------------------------------------------------------------------------
// Node counts
// ---------------------------------------------------------------------------

/// The number of expression nodes in a tree.
pub open spec fn size(e: ExprView) -> nat
    decreases e, 0nat,
{
    match e {
        ExprView::StandardBasis(index, _) => 1 + size(*index),
        ExprView::Type(t) => 1 + type_size(t),
        ExprView::Matrix(_, _, elements) => 1 + sizes(elements),
        ExprView::Monop(_, a) => 1 + size(*a),
        ExprView::Binop(_, a, b) => 1 + size(*a) + size(*b),
        ExprView::Triop(_, a, b, c) => 1 + size(*a) + size(*b) + size(*c),
        ExprView::Finop(_, operands) => 1 + sizes(operands),
        ExprView::CmpChain(start, links) => 1 + size(*start) + link_sizes(links),
        ExprView::LogicChain(start, links) => 1 + size(*start) + link_sizes(links),
        ExprView::Seqop(_, _, from, to, body) => 1 + size(*from) + size(*to) + size(*body),
        ExprView::SetComprehension(_, domain, predicate) => 1 + type_size(domain) + size(*predicate),
        _ => 1,
    }
}

/// The number of expression nodes inside a type.
pub open spec fn type_size(t: TypeView) -> nat
    decreases t, 0nat,
{
    match t {
        TypeView::Matrix(r, c) => size(*r) + size(*c),
        TypeView::Sequence(e, n) => size(*e) + size(*n),
        TypeView::SetOf(inner) => type_size(*inner),
        _ => 0,
    }
}

/// The number of nodes in a list of trees.
pub open spec fn sizes(s: Seq<ExprView>) -> nat
    decreases s, 1nat,
{
    if s.len() == 0 {
        0
    } else {
        sizes(s.drop_last()) + size(s.last())
    }
}

/// The number of nodes in the trees of a list of chain links.
pub open spec fn link_sizes<O>(s: Seq<(O, ExprView)>) -> nat
    decreases s, 1nat,
{
    if s.len() == 0 {
        0
    } else {
        link_sizes(s.drop_last()) + size(s.last().1)
    }
}

/// Every tree has at least one node.
pub proof fn lemma_size_positive(e: ExprView)
    ensures
        size(e) >= 1,
{
}

/// Every tree has at least one node.
pub proof fn lemma_size_positive_everywhere()
    ensures
        forall|e: ExprView| #[trigger] size(e) >= 1,
        size(ExprView::Hole) == 1,
        max_bound_index(ExprView::Hole) == 0,
{
    assert forall|e: ExprView| #[trigger] size(e) >= 1 by {
        lemma_size_positive(e);
    }
}

/// The measures of a type expression node are those of its type.
pub proof fn lemma_type_measures(t: TypeView)
    ensures
        size(ExprView::Type(t)) == 1 + type_size(t),
        max_bound_index(ExprView::Type(t)) == max_bound_index_type(t),
        type_size(t) == match t {
            TypeView::Matrix(a, b) => size(*a) + size(*b),
            TypeView::Sequence(a, b) => size(*a) + size(*b),
            TypeView::SetOf(inner) => type_size(*inner),
            _ => 0,
        },
        max_bound_index_type(t) == match t {
            TypeView::Matrix(a, b) => larger(max_bound_index(*a), max_bound_index(*b)),
            TypeView::Sequence(a, b) => larger(max_bound_index(*a), max_bound_index(*b)),
            TypeView::SetOf(inner) => max_bound_index_type(*inner),
            _ => 0,
        },
{
}

/// The number of nodes in the tree.
pub fn node_count<Metadata>(expression: &Expr<Metadata>) -> (count: usize)
    requires
        size(expression@) <= usize::MAX,
    ensures
        count == size(expression@),
    decreases *expression, 0nat,
{
    match expression.raw() {
        RawExpr::StandardBasis { index, .. } => 1 + node_count(index),
        RawExpr::Type(ty) => 1 + type_node_count(ty),
        RawExpr::Matrix(matrix) => 1 + node_counts(&matrix.elements),
        RawExpr::Monop(_, a) => 1 + node_count(a),
        RawExpr::Binop(_, a, b) => 1 + node_count(a) + node_count(b),
        RawExpr::Triop(_, a, b, c) => 1 + node_count(a) + node_count(b) + node_count(c),
        RawExpr::Finop(_, operands) => 1 + node_counts(operands),
        RawExpr::CmpChain(chain) => 1 + node_count(&chain.start) + comparison_node_counts(&chain.assertions),
        RawExpr::LogicChain(chain) => 1 + node_count(&chain.start) + logic_node_counts(&chain.assertions),
        RawExpr::Seqop(_, range, body) => 1 + node_count(&range.from) + node_count(&range.to) + node_count(body),
        RawExpr::SetComprehension { domain, predicate, .. } => 1 + type_node_count(domain) + node_count(predicate),
        _ => 1,
    }
}

/// The number of expression nodes inside a type.
pub fn type_node_count<Metadata>(ty: &TypeExpr<Metadata>) -> (count: usize)
    requires
        type_size(type_view(*ty)) <= usize::MAX,
    ensures
        count == type_size(type_view(*ty)),
    decreases *ty, 0nat,
{
    match ty {
        TypeExpr::Matrix(r, c) => node_count(r) + node_count(c),
        TypeExpr::Sequence(e, n) => node_count(e) + node_count(n),
        TypeExpr::SetOf(inner) => {
            let inner: &TypeExpr<Metadata> = inner;
            type_node_count(inner)
        },
        _ => 0,
    }
}

/// The number of nodes in a list of trees.
pub fn node_counts<Metadata>(expressions: &Vec<Expr<Metadata>>) -> (count: usize)
    requires
        sizes(views(expressions@)) <= usize::MAX,
    ensures
        count == sizes(views(expressions@)),
    decreases expressions@, 0nat,
{
    let ghost all = views(expressions@);
    proof {
        lemma_views(expressions@);
    }
    let mut count: usize = 0;
    let mut i: usize = 0;
    while i < expressions.len()
        invariant
            i <= expressions.len(),
            all == views(expressions@),
            all.len() == expressions.len(),
            forall|j: int| 0 <= j < expressions.len() ==> #[trigger] all[j] == expressions@[j]@,
            sizes(all) <= usize::MAX,
            count == sizes(all.take(i as int)),
        decreases expressions.len() - i,
    {
        proof {
            assert(all.take(i + 1).drop_last() =~= all.take(i as int));
            assert(decreases_to!(expressions@ => expressions@[i as int]));
            lemma_sizes_prefix(all, i + 1);
        }
        count = count + node_count(&expressions[i]);
        i = i + 1;
    }
    proof {
        assert(all.take(expressions.len() as int) =~= all);
    }
    count
}

/// The number of nodes in the trees of a list of chain links.
pub fn comparison_node_counts<Metadata>(links: &Vec<(Cmp, Expr<Metadata>)>) -> (count: usize)
    requires
        link_sizes(comparison_views(links@)) <= usize::MAX,
    ensures
        count == link_sizes(comparison_views(links@)),
    decreases links@, 0nat,
{
    let ghost all = comparison_views(links@);
    proof {
        lemma_comparison_views(links@);
    }
    let mut count: usize = 0;
    let mut i: usize = 0;
    while i < links.len()
        invariant
            i <= links.len(),
            all == comparison_views(links@),
            all.len() == links.len(),
            forall|j: int| 0 <= j < links.len() ==> #[trigger] all[j] == (links@[j].0, links@[j].1@),
            link_sizes(all) <= usize::MAX,
            count == link_sizes(all.take(i as int)),
        decreases links.len() - i,
    {
        proof {
            assert(all.take(i + 1).drop_last() =~= all.take(i as int));
            assert(decreases_to!(links@ => links@[i as int]));
            lemma_link_sizes_prefix(all, i + 1);
        }
        count = count + node_count(&links[i].1);
        i = i + 1;
    }
    proof {
        assert(all.take(links.len() as int) =~= all);
    }
    count
}

/// The number of nodes in the trees of a list of chain links.
pub fn logic_node_counts<Metadata>(links: &Vec<(Logic, Expr<Metadata>)>) -> (count: usize)
    requires
        link_sizes(logic_views(links@)) <= usize::MAX,
    ensures
        count == link_sizes(logic_views(links@)),
    decreases links@, 0nat,
{
    let ghost all = logic_views(links@);
    proof {
        lemma_logic_views(links@);
    }
    let mut count: usize = 0;
    let mut i: usize = 0;
    while i < links.len()
        invariant
            i <= links.len(),
            all == logic_views(links@),
            all.len() == links.len(),
            forall|j: int| 0 <= j < links.len() ==> #[trigger] all[j] == (links@[j].0, links@[j].1@),
            link_sizes(all) <= usize::MAX,
            count == link_sizes(all.take(i as int)),
        decreases links.len() - i,
    {
        proof {
            assert(all.take(i + 1).drop_last() =~= all.take(i as int));
            assert(decreases_to!(links@ => links@[i as int]));
            lemma_link_sizes_prefix(all, i + 1);
        }
        count = count + node_count(&links[i].1);
        i = i + 1;
    }
    proof {
        assert(all.take(links.len() as int) =~= all);
    }
    count
}

/// The models of chain links with generic operators.
pub open spec fn link_views<O, Metadata>(s: Seq<(O, Expr<Metadata>)>) -> Seq<(O, ExprView)>
    decreases s.len(),
{
    if s.len() == 0 {
        Seq::empty()
    } else {
        link_views(s.drop_last()).push((s.last().0, s.last().1@))
    }
}

/// `link_views` is taken pointwise.
pub proof fn lemma_link_views<O, Metadata>(s: Seq<(O, Expr<Metadata>)>)
    ensures
        link_views(s).len() == s.len(),
        forall|i: int| 0 <= i < s.len() ==> #[trigger] link_views(s)[i] == (s[i].0, s[i].1@),
    decreases s.len(),
{
    if s.len() > 0 {
        lemma_link_views(s.drop_last());
    }
}

/// Comparison links and generic links have the same models.
pub proof fn lemma_comparison_links<Metadata>(s: Seq<(Cmp, Expr<Metadata>)>)
    ensures
        link_views(s) == comparison_views(s),
{
    lemma_link_views(s);
    lemma_comparison_views(s);
    assert(link_views(s) =~= comparison_views(s));
}

/// Logic links and generic links have the same models.
pub proof fn lemma_logic_links<Metadata>(s: Seq<(Logic, Expr<Metadata>)>)
    ensures
        link_views(s) == logic_views(s),
{
    lemma_link_views(s);
    lemma_logic_views(s);
    assert(link_views(s) =~= logic_views(s));
}

/// A prefix has no more nodes than the whole list.
pub proof fn lemma_sizes_prefix(s: Seq<ExprView>, k: int)
    requires
        0 <= k <= s.len(),
    ensures
        sizes(s.take(k)) <= sizes(s),
    decreases s.len() - k,
{
    if k < s.len() {
        lemma_sizes_prefix(s, k + 1);
        assert(s.take(k + 1).drop_last() =~= s.take(k));
    } else {
        assert(s.take(k) =~= s);
    }
}

/// A prefix of links has no more nodes than the whole list.
pub proof fn lemma_link_sizes_prefix<O>(s: Seq<(O, ExprView)>, k: int)
    requires
        0 <= k <= s.len(),
    ensures
        link_sizes(s.take(k)) <= link_sizes(s),
    decreases s.len() - k,
{
    if k < s.len() {
        lemma_link_sizes_prefix(s, k + 1);
        assert(s.take(k + 1).drop_last() =~= s.take(k));
    } else {
        assert(s.take(k) =~= s);
    }
}

// ---------------------------------------------------------------------------
// Holes
// ---------------------------------------------------------------------------

/// Whether some node of the tree is a hole.
pub open spec fn has_hole(e: ExprView) -> bool
    decreases e, 0nat,
{
    match e {
        ExprView::Hole => true,
        ExprView::StandardBasis(index, _) => has_hole(*index),
        ExprView::Type(t) => type_has_hole(t),
        ExprView::Matrix(_, _, elements) => any_hole(elements),
        ExprView::Monop(_, a) => has_hole(*a),
        ExprView::Binop(_, a, b) => has_hole(*a) || has_hole(*b),
        ExprView::Triop(_, a, b, c) => has_hole(*a) || has_hole(*b) || has_hole(*c),
        ExprView::Finop(_, operands) => any_hole(operands),
        ExprView::CmpChain(start, links) => has_hole(*start) || any_link_hole(links),
        ExprView::LogicChain(start, links) => has_hole(*start) || any_link_hole(links),
        ExprView::Seqop(_, _, from, to, body) => has_hole(*from) || has_hole(*to) || has_hole(*body),
        ExprView::SetComprehension(_, domain, predicate) => type_has_hole(domain) || has_hole(*predicate),
        _ => false,
    }
}

/// Whether some dimension expression of the type holds a hole.
pub open spec fn type_has_hole(t: TypeView) -> bool
    decreases t, 0nat,
{
    match t {
        TypeView::Matrix(r, c) => has_hole(*r) || has_hole(*c),
        TypeView::Sequence(e, n) => has_hole(*e) || has_hole(*n),
        TypeView::SetOf(inner) => type_has_hole(*inner),
        _ => false,
    }
}

/// Whether some tree of the list holds a hole.
pub open spec fn any_hole(s: Seq<ExprView>) -> bool
    decreases s, 1nat,
{
    if s.len() == 0 {
        false
    } else {
        any_hole(s.drop_last()) || has_hole(s.last())
    }
}

/// Whether some link of the list holds a hole.
pub open spec fn any_link_hole<O>(s: Seq<(O, ExprView)>) -> bool
    decreases s, 1nat,
{
    if s.len() == 0 {
        false
    } else {
        any_link_hole(s.drop_last()) || has_hole(s.last().1)
    }
}

/// Whether some node of the tree is a hole.
pub fn contains_hole<Metadata>(expression: &Expr<Metadata>) -> (found: bool)
    ensures
        found == has_hole(expression@),
    decreases *expression, 0nat,
{
    match expression.raw() {
        RawExpr::Hole => true,
        RawExpr::StandardBasis { index, .. } => contains_hole(index),
        RawExpr::Type(ty) => type_contains_hole(ty),
        RawExpr::Matrix(matrix) => any_contains_hole(&matrix.elements),
        RawExpr::Monop(_, a) => contains_hole(a),
        RawExpr::Binop(_, a, b) => contains_hole(a) || contains_hole(b),
        RawExpr::Triop(_, a, b, c) => contains_hole(a) || contains_hole(b) || contains_hole(c),
        RawExpr::Finop(_, operands) => any_contains_hole(operands),
        RawExpr::CmpChain(chain) => contains_hole(&chain.start) || comparisons_contain_hole(&chain.assertions),
        RawExpr::LogicChain(chain) => contains_hole(&chain.start) || logics_contain_hole(&chain.assertions),
        RawExpr::Seqop(_, range, body) => contains_hole(&range.from) || contains_hole(&range.to) || contains_hole(body),
        RawExpr::SetComprehension { domain, predicate, .. } => type_contains_hole(domain) || contains_hole(predicate),
        _ => false,
    }
}

/// Whether some dimension expression of the type holds a hole.
pub fn type_contains_hole<Metadata>(ty: &TypeExpr<Metadata>) -> (found: bool)
    ensures
        found == type_has_hole(type_view(*ty)),
    decreases *ty, 0nat,
{
    match ty {
        TypeExpr::Matrix(r, c) => contains_hole(r) || contains_hole(c),
        TypeExpr::Sequence(e, n) => contains_hole(e) || contains_hole(n),
        TypeExpr::SetOf(inner) => {
            let inner: &TypeExpr<Metadata> = inner;
            type_contains_hole(inner)
        },
        _ => false,
    }
}

/// Whether some tree of the list holds a hole.
pub fn any_contains_hole<Metadata>(expressions: &Vec<Expr<Metadata>>) -> (found: bool)
    ensures
        found == any_hole(views(expressions@)),
    decreases expressions@, 0nat,
{
    let ghost all = views(expressions@);
    proof {
        lemma_views(expressions@);
    }
    let mut found = false;
    let mut i: usize = 0;
    while i < expressions.len()
        invariant
            i <= expressions.len(),
            all == views(expressions@),
            all.len() == expressions.len(),
            forall|j: int| 0 <= j < expressions.len() ==> #[trigger] all[j] == expressions@[j]@,
            found == any_hole(all.take(i as int)),
        decreases expressions.len() - i,
    {
        proof {
            assert(all.take(i + 1).drop_last() =~= all.take(i as int));
            assert(decreases_to!(expressions@ => expressions@[i as int]));
        }
        found = found || contains_hole(&expressions[i]);
        i = i + 1;
    }
    proof {
        assert(all.take(expressions.len() as int) =~= all);
    }
    found
}

/// Whether some link of the list holds a hole.
pub fn comparisons_contain_hole<Metadata>(links: &Vec<(Cmp, Expr<Metadata>)>) -> (found: bool)
    ensures
        found == any_link_hole(comparison_views(links@)),
    decreases links@, 0nat,
{
    let ghost all = comparison_views(links@);
    proof {
        lemma_comparison_views(links@);
    }
    let mut found = false;
    let mut i: usize = 0;
    while i < links.len()
        invariant
            i <= links.len(),
            all == comparison_views(links@),
            all.len() == links.len(),
            forall|j: int| 0 <= j < links.len() ==> #[trigger] all[j] == (links@[j].0, links@[j].1@),
            found == any_link_hole(all.take(i as int)),
        decreases links.len() - i,
    {
        proof {
            assert(all.take(i + 1).drop_last() =~= all.take(i as int));
            assert(decreases_to!(links@ => links@[i as int]));
        }
        found = found || contains_hole(&links[i].1);
        i = i + 1;
    }
    proof {
        assert(all.take(links.len() as int) =~= all);
    }
    found
}

/// Whether some link of the list holds a hole.
pub fn logics_contain_hole<Metadata>(links: &Vec<(Logic, Expr<Metadata>)>) -> (found: bool)
    ensures
        found == any_link_hole(logic_views(links@)),
    decreases links@, 0nat,
{
    let ghost all = logic_views(links@);
    proof {
        lemma_logic_views(links@);
    }
    let mut found = false;
    let mut i: usize = 0;
    while i < links.len()
        invariant
            i <= links.len(),
            all == logic_views(links@),
            all.len() == links.len(),
            forall|j: int| 0 <= j < links.len() ==> #[trigger] all[j] == (links@[j].0, links@[j].1@),
            found == any_link_hole(all.take(i as int)),
        decreases links.len() - i,
    {
        proof {
            assert(all.take(i + 1).drop_last() =~= all.take(i as int));
            assert(decreases_to!(links@ => links@[i as int]));
        }
        found = found || contains_hole(&links[i].1);
        i = i + 1;
    }
    proof {
        assert(all.take(links.len() as int) =~= all);
    }
    found
}


// ---------------------------------------------------------------------------
// Replacing one node by a hole
// ---------------------------------------------------------------------------

/// The tree with its node number `k` (in preorder) replaced by a hole; the
/// tree itself when it has no such node.
pub open spec fn holeify(e: ExprView, k: int) -> ExprView
    decreases e, 0nat,
{
    if k == 0 {
        ExprView::Hole
    } else {
        let j = k - 1;
        match e {
            ExprView::StandardBasis(index, d) => if j < size(*index) {
                ExprView::StandardBasis(Box::new(holeify(*index, j)), d)
            } else {
                e
            },
            ExprView::Type(t) => if j < type_size(t) { ExprView::Type(type_holeify(t, j)) } else { e },
            ExprView::Matrix(r, c, elements) => if j < sizes(elements) {
                ExprView::Matrix(r, c, holeify_seq(elements, j))
            } else {
                e
            },
            ExprView::Monop(op, a) => if j < size(*a) { ExprView::Monop(op, Box::new(holeify(*a, j))) } else { e },
            ExprView::Binop(op, a, b) => if j < size(*a) {
                ExprView::Binop(op, Box::new(holeify(*a, j)), b)
            } else if j - size(*a) < size(*b) {
                ExprView::Binop(op, a, Box::new(holeify(*b, j - size(*a))))
            } else {
                e
            },
            ExprView::Triop(op, a, b, c) => if j < size(*a) {
                ExprView::Triop(op, Box::new(holeify(*a, j)), b, c)
            } else if j - size(*a) < size(*b) {
                ExprView::Triop(op, a, Box::new(holeify(*b, j - size(*a))), c)
            } else if j - size(*a) - size(*b) < size(*c) {
                ExprView::Triop(op, a, b, Box::new(holeify(*c, j - size(*a) - size(*b))))
            } else {
                e
            },
            ExprView::Finop(op, operands) => if j < sizes(operands) {
                ExprView::Finop(op, holeify_seq(operands, j))
            } else {
                e
            },
            ExprView::CmpChain(start, links) => if j < size(*start) {
                ExprView::CmpChain(Box::new(holeify(*start, j)), links)
            } else if j - size(*start) < link_sizes(links) {
                ExprView::CmpChain(start, holeify_links(links, j - size(*start)))
            } else {
                e
            },
            ExprView::LogicChain(start, links) => if j < size(*start) {
                ExprView::LogicChain(Box::new(holeify(*start, j)), links)
            } else if j - size(*start) < link_sizes(links) {
                ExprView::LogicChain(start, holeify_links(links, j - size(*start)))
            } else {
                e
            },
            ExprView::Seqop(op, v, from, to, body) => if j < size(*from) {
                ExprView::Seqop(op, v, Box::new(holeify(*from, j)), to, body)
            } else if j - size(*from) < size(*to) {
                ExprView::Seqop(op, v, from, Box::new(holeify(*to, j - size(*from))), body)
            } else if j - size(*from) - size(*to) < size(*body) {
                ExprView::Seqop(op, v, from, to, Box::new(holeify(*body, j - size(*from) - size(*to))))
            } else {
                e
            },
            ExprView::SetComprehension(v, domain, predicate) => if j < type_size(domain) {
                ExprView::SetComprehension(v, type_holeify(domain, j), predicate)
            } else if j - type_size(domain) < size(*predicate) {
                ExprView::SetComprehension(v, domain, Box::new(holeify(*predicate, j - type_size(domain))))
            } else {
                e
            },
            _ => e,
        }
    }
}

/// The type with the `k`th node of its dimension expressions replaced by a
/// hole.
pub open spec fn type_holeify(t: TypeView, k: int) -> TypeView
    decreases t, 0nat,
{
    match t {
        TypeView::Matrix(r, c) => if k < size(*r) {
            TypeView::Matrix(Box::new(holeify(*r, k)), c)
        } else if k - size(*r) < size(*c) {
            TypeView::Matrix(r, Box::new(holeify(*c, k - size(*r))))
        } else {
            t
        },
        TypeView::Sequence(e, n) => if k < size(*e) {
            TypeView::Sequence(Box::new(holeify(*e, k)), n)
        } else if k - size(*e) < size(*n) {
            TypeView::Sequence(e, Box::new(holeify(*n, k - size(*e))))
        } else {
            t
        },
        TypeView::SetOf(inner) => TypeView::SetOf(Box::new(type_holeify(*inner, k))),
        _ => t,
    }
}

/// The list with the `k`th node of its trees replaced by a hole.
pub open spec fn holeify_seq(s: Seq<ExprView>, k: int) -> Seq<ExprView>
    decreases s, 1nat,
{
    if s.len() == 0 {
        s
    } else {
        let p = sizes(s.drop_last());
        if k < p {
            holeify_seq(s.drop_last(), k).push(s.last())
        } else if k - p < size(s.last()) {
            s.drop_last().push(holeify(s.last(), k - p))
        } else {
            s
        }
    }
}

/// The links with the `k`th node of their trees replaced by a hole.
pub open spec fn holeify_links<O>(s: Seq<(O, ExprView)>, k: int) -> Seq<(O, ExprView)>
    decreases s, 1nat,
{
    if s.len() == 0 {
        s
    } else {
        let p = link_sizes(s.drop_last());
        if k < p {
            holeify_links(s.drop_last(), k).push(s.last())
        } else if k - p < size(s.last().1) {
            s.drop_last().push((s.last().0, holeify(s.last().1, k - p)))
        } else {
            s
        }
    }
}

/// A copy of the tree whose node number `target` (in preorder) is a new
/// hole with default metadata; the other nodes keep (clones of) their
/// metadata.
pub fn replace_node_with_hole<Metadata: Clone + Default>(expression: &Expr<Metadata>, target: usize) -> (result: Expr<Metadata>)
    requires
        target < size(expression@),
        size(expression@) <= usize::MAX,
    ensures
        result@ == holeify(expression@, target as int),
    decreases *expression, 0nat,
{
    if target == 0 {
        return Expr::new(RawExpr::Hole);
    }
    let j = target - 1;
    let raw = match expression.raw() {
        RawExpr::StandardBasis { index, dimension } => RawExpr::StandardBasis {
            index: replace_node_with_hole(index, j),
            dimension: *dimension,
        },
        RawExpr::Type(ty) => RawExpr::Type(replace_type_node_with_hole(ty, j)),
        RawExpr::Matrix(matrix) => RawExpr::Matrix(Matrix {
            rows: matrix.rows,
            cols: matrix.cols,
            elements: replace_in_list(&matrix.elements, j),
        }),
        RawExpr::Monop(op, a) => RawExpr::Monop(*op, replace_node_with_hole(a, j)),
        RawExpr::Binop(op, a, b) => {
            let na = node_count(a);
            if j < na {
                RawExpr::Binop(*op, replace_node_with_hole(a, j), deep_clone(b))
            } else {
                RawExpr::Binop(*op, deep_clone(a), replace_node_with_hole(b, j - na))
            }
        },
        RawExpr::Triop(op, a, b, c) => {
            let na = node_count(a);
            let nb = node_count(b);
            if j < na {
                RawExpr::Triop(*op, replace_node_with_hole(a, j), deep_clone(b), deep_clone(c))
            } else if j - na < nb {
                RawExpr::Triop(*op, deep_clone(a), replace_node_with_hole(b, j - na), deep_clone(c))
            } else {
                RawExpr::Triop(*op, deep_clone(a), deep_clone(b), replace_node_with_hole(c, j - na - nb))
            }
        },
        RawExpr::Finop(op, operands) => RawExpr::Finop(*op, replace_in_list(operands, j)),
        RawExpr::CmpChain(chain) => {
            let ns = node_count(&chain.start);
            if j < ns {
                RawExpr::CmpChain(CmpChain {
                    start: replace_node_with_hole(&chain.start, j),
                    assertions: crate::deep_clone::deep_clone_comparisons(&chain.assertions),
                })
            } else {
                RawExpr::CmpChain(CmpChain {
                    start: deep_clone(&chain.start),
                    assertions: replace_in_comparisons(&chain.assertions, j - ns),
                })
            }
        },
        RawExpr::LogicChain(chain) => {
            let ns = node_count(&chain.start);
            if j < ns {
                RawExpr::LogicChain(LogicChain {
                    start: replace_node_with_hole(&chain.start, j),
                    assertions: crate::deep_clone::deep_clone_logic(&chain.assertions),
                })
            } else {
                RawExpr::LogicChain(LogicChain {
                    start: deep_clone(&chain.start),
                    assertions: replace_in_logic(&chain.assertions, j - ns),
                })
            }
        },
        RawExpr::Seqop(op, range, body) => {
            let nf = node_count(&range.from);
            let nt = node_count(&range.to);
            let index_variable = range.index_variable.duplicate();
            if j < nf {
                RawExpr::Seqop(*op, Range { index_variable, from: replace_node_with_hole(&range.from, j), to: deep_clone(&range.to) }, deep_clone(body))
            } else if j - nf < nt {
                RawExpr::Seqop(*op, Range { index_variable, from: deep_clone(&range.from), to: replace_node_with_hole(&range.to, j - nf) }, deep_clone(body))
            } else {
                RawExpr::Seqop(*op, Range { index_variable, from: deep_clone(&range.from), to: deep_clone(&range.to) }, replace_node_with_hole(body, j - nf - nt))
            }
        },
        RawExpr::SetComprehension { variable, domain, predicate } => {
            let nd = type_node_count(domain);
            if j < nd {
                RawExpr::SetComprehension {
                    variable: variable.duplicate(),
                    domain: replace_type_node_with_hole(domain, j),
                    predicate: deep_clone(predicate),
                }
            } else {
                RawExpr::SetComprehension {
                    variable: variable.duplicate(),
                    domain: crate::deep_clone::deep_clone_type(domain),
                    predicate: replace_node_with_hole(predicate, j - nd),
                }
            }
        },
        _ => {
            return deep_clone(expression);
        },
    };
    Expr::with_metadata(expression.meta().clone(), raw)
}

/// A copy of the type with node `target` of its dimension expressions
/// replaced by a hole.
pub fn replace_type_node_with_hole<Metadata: Clone + Default>(ty: &TypeExpr<Metadata>, target: usize) -> (result: TypeExpr<Metadata>)
    requires
        target < type_size(type_view(*ty)),
        type_size(type_view(*ty)) <= usize::MAX,
    ensures
        type_view(result) == type_holeify(type_view(*ty), target as int),
    decreases *ty, 0nat,
{
    match ty {
        TypeExpr::Matrix(r, c) => {
            let nr = node_count(r);
            if target < nr {
                TypeExpr::Matrix(replace_node_with_hole(r, target), deep_clone(c))
            } else {
                TypeExpr::Matrix(deep_clone(r), replace_node_with_hole(c, target - nr))
            }
        },
        TypeExpr::Sequence(e, n) => {
            let ne = node_count(e);
            if target < ne {
                TypeExpr::Sequence(replace_node_with_hole(e, target), deep_clone(n))
            } else {
                TypeExpr::Sequence(deep_clone(e), replace_node_with_hole(n, target - ne))
            }
        },
        TypeExpr::SetOf(inner) => {
            let inner: &TypeExpr<Metadata> = inner;
            TypeExpr::SetOf(Box::new(replace_type_node_with_hole(inner, target)))
        },
        _ => crate::deep_clone::deep_clone_type(ty),
    }
}

/// A copy of the list with node `target` of its trees replaced by a hole.
pub fn replace_in_list<Metadata: Clone + Default>(expressions: &Vec<Expr<Metadata>>, target: usize) -> (result: Vec<Expr<Metadata>>)
    requires
        sizes(views(expressions@)) <= usize::MAX,
    ensures
        views(result@) == holeify_seq(views(expressions@), target as int),
    decreases expressions@, 0nat,
{
    let ghost all = views(expressions@);
    proof {
        lemma_views(expressions@);
    }
    let mut result: Vec<Expr<Metadata>> = Vec::new();
    let mut offset: usize = 0;
    let mut i: usize = 0;
    while i < expressions.len()
        invariant
            i <= expressions.len(),
            all == views(expressions@),
            all.len() == expressions.len(),
            forall|j: int| 0 <= j < expressions.len() ==> #[trigger] all[j] == expressions@[j]@,
            sizes(all) <= usize::MAX,
            offset == sizes(all.take(i as int)),
            views(result@) == holeify_seq(all.take(i as int), target as int),
        decreases expressions.len() - i,
    {
        proof {
            assert(all.take(i + 1).drop_last() =~= all.take(i as int));
            assert(decreases_to!(expressions@ => expressions@[i as int]));
            lemma_sizes_prefix(all, i + 1);
        }
        let ghost before = result@;
        let n = node_count(&expressions[i]);
        if target >= offset && target - offset < n {
            result.push(replace_node_with_hole(&expressions[i], target - offset));
        } else {
            result.push(deep_clone(&expressions[i]));
        }
        proof {
            assert(result@.drop_last() =~= before);
        }
        offset = offset + n;
        i = i + 1;
    }
    proof {
        assert(all.take(expressions.len() as int) =~= all);
    }
    result
}

/// A copy of the links with node `target` of their trees replaced by a hole.
pub fn replace_in_comparisons<Metadata: Clone + Default>(links: &Vec<(Cmp, Expr<Metadata>)>, target: usize) -> (result: Vec<(Cmp, Expr<Metadata>)>)
    requires
        link_sizes(comparison_views(links@)) <= usize::MAX,
    ensures
        comparison_views(result@) == holeify_links(comparison_views(links@), target as int),
    decreases links@, 0nat,
{
    let ghost all = comparison_views(links@);
    proof {
        lemma_comparison_views(links@);
    }
    let mut result: Vec<(Cmp, Expr<Metadata>)> = Vec::new();
    let mut offset: usize = 0;
    let mut i: usize = 0;
    while i < links.len()
        invariant
            i <= links.len(),
            all == comparison_views(links@),
            all.len() == links.len(),
            forall|j: int| 0 <= j < links.len() ==> #[trigger] all[j] == (links@[j].0, links@[j].1@),
            link_sizes(all) <= usize::MAX,
            offset == link_sizes(all.take(i as int)),
            comparison_views(result@) == holeify_links(all.take(i as int), target as int),
        decreases links.len() - i,
    {
        proof {
            assert(all.take(i + 1).drop_last() =~= all.take(i as int));
            assert(decreases_to!(links@ => links@[i as int]));
            lemma_link_sizes_prefix(all, i + 1);
        }
        let ghost before = result@;
        let (op, expression) = &links[i];
        let n = node_count(expression);
        if target >= offset && target - offset < n {
            result.push((*op, replace_node_with_hole(expression, target - offset)));
        } else {
            result.push((*op, deep_clone(expression)));
        }
        proof {
            assert(result@.drop_last() =~= before);
        }
        offset = offset + n;
        i = i + 1;
    }
    proof {
        assert(all.take(links.len() as int) =~= all);
    }
    result
}

/// A copy of the links with node `target` of their trees replaced by a hole.
pub fn replace_in_logic<Metadata: Clone + Default>(links: &Vec<(Logic, Expr<Metadata>)>, target: usize) -> (result: Vec<(Logic, Expr<Metadata>)>)
    requires
        link_sizes(logic_views(links@)) <= usize::MAX,
    ensures
        logic_views(result@) == holeify_links(logic_views(links@), target as int),
    decreases links@, 0nat,
{
    let ghost all = logic_views(links@);
    proof {
        lemma_logic_views(links@);
    }
    let mut result: Vec<(Logic, Expr<Metadata>)> = Vec::new();
    let mut offset: usize = 0;
    let mut i: usize = 0;
    while i < links.len()
        invariant
            i <= links.len(),
            all == logic_views(links@),
            all.len() == links.len(),
            forall|j: int| 0 <= j < links.len() ==> #[trigger] all[j] == (links@[j].0, links@[j].1@),
            link_sizes(all) <= usize::MAX,
            offset == link_sizes(all.take(i as int)),
            logic_views(result@) == holeify_links(all.take(i as int), target as int),
        decreases links.len() - i,
    {
        proof {
            assert(all.take(i + 1).drop_last() =~= all.take(i as int));
            assert(decreases_to!(links@ => links@[i as int]));
            lemma_link_sizes_prefix(all, i + 1);
        }
        let ghost before = result@;
        let (op, expression) = &links[i];
        let n = node_count(expression);
        if target >= offset && target - offset < n {
            result.push((*op, replace_node_with_hole(expression, target - offset)));
        } else {
            result.push((*op, deep_clone(expression)));
        }
        proof {
            assert(result@.drop_last() =~= before);
        }
        offset = offset + n;
        i = i + 1;
    }
    proof {
        assert(all.take(links.len() as int) =~= all);
    }
    result
}


// ---------------------------------------------------------------------------
// Filling holes
// ---------------------------------------------------------------------------

/// The tree with every hole replaced by `r`.
pub open spec fn fill(e: ExprView, r: ExprView) -> ExprView
    decreases e, 0nat,
{
    match e {
        ExprView::Hole => r,
        ExprView::StandardBasis(index, d) => ExprView::StandardBasis(Box::new(fill(*index, r)), d),
        ExprView::Type(t) => ExprView::Type(type_fill(t, r)),
        ExprView::Matrix(rows, cols, elements) => ExprView::Matrix(rows, cols, fill_seq(elements, r)),
        ExprView::Monop(op, a) => ExprView::Monop(op, Box::new(fill(*a, r))),
        ExprView::Binop(op, a, b) => ExprView::Binop(op, Box::new(fill(*a, r)), Box::new(fill(*b, r))),
        ExprView::Triop(op, a, b, c) => ExprView::Triop(
            op,
            Box::new(fill(*a, r)),
            Box::new(fill(*b, r)),
            Box::new(fill(*c, r)),
        ),
        ExprView::Finop(op, operands) => ExprView::Finop(op, fill_seq(operands, r)),
        ExprView::CmpChain(start, links) => ExprView::CmpChain(Box::new(fill(*start, r)), fill_links(links, r)),
        ExprView::LogicChain(start, links) => ExprView::LogicChain(Box::new(fill(*start, r)), fill_links(links, r)),
        ExprView::Seqop(op, v, from, to, body) => ExprView::Seqop(
            op,
            v,
            Box::new(fill(*from, r)),
            Box::new(fill(*to, r)),
            Box::new(fill(*body, r)),
        ),
        ExprView::SetComprehension(v, domain, predicate) => ExprView::SetComprehension(
            v,
            type_fill(domain, r),
            Box::new(fill(*predicate, r)),
        ),
        _ => e,
    }
}

/// The type with every hole in its dimension expressions replaced by `r`.
pub open spec fn type_fill(t: TypeView, r: ExprView) -> TypeView
    decreases t, 0nat,
{
    match t {
        TypeView::Matrix(a, b) => TypeView::Matrix(Box::new(fill(*a, r)), Box::new(fill(*b, r))),
        TypeView::Sequence(a, b) => TypeView::Sequence(Box::new(fill(*a, r)), Box::new(fill(*b, r))),
        TypeView::SetOf(inner) => TypeView::SetOf(Box::new(type_fill(*inner, r))),
        _ => t,
    }
}

/// The list with every hole replaced by `r`.
pub open spec fn fill_seq(s: Seq<ExprView>, r: ExprView) -> Seq<ExprView>
    decreases s, 1nat,
{
    if s.len() == 0 {
        s
    } else {
        fill_seq(s.drop_last(), r).push(fill(s.last(), r))
    }
}

/// The links with every hole replaced by `r`.
pub open spec fn fill_links<O>(s: Seq<(O, ExprView)>, r: ExprView) -> Seq<(O, ExprView)>
    decreases s, 1nat,
{
    if s.len() == 0 {
        s
    } else {
        fill_links(s.drop_last(), r).push((s.last().0, fill(s.last().1, r)))
    }
}

/// A new tree in which every hole is a fresh copy of `replacement`.
pub fn fill_holes<Metadata: Clone>(expression: &Expr<Metadata>, replacement: &Expr<Metadata>) -> (result: Expr<Metadata>)
    ensures
        result@ == fill(expression@, replacement@),
    decreases *expression, 0nat,
{
    let raw = match expression.raw() {
        RawExpr::Hole => {
            return deep_clone(replacement);
        },
        RawExpr::StandardBasis { index, dimension } => RawExpr::StandardBasis {
            index: fill_holes(index, replacement),
            dimension: *dimension,
        },
        RawExpr::Type(ty) => RawExpr::Type(fill_type_holes(ty, replacement)),
        RawExpr::Matrix(matrix) => RawExpr::Matrix(Matrix {
            rows: matrix.rows,
            cols: matrix.cols,
            elements: fill_list(&matrix.elements, replacement),
        }),
        RawExpr::Monop(op, a) => RawExpr::Monop(*op, fill_holes(a, replacement)),
        RawExpr::Binop(op, a, b) => RawExpr::Binop(*op, fill_holes(a, replacement), fill_holes(b, replacement)),
        RawExpr::Triop(op, a, b, c) => RawExpr::Triop(
            *op,
            fill_holes(a, replacement),
            fill_holes(b, replacement),
            fill_holes(c, replacement),
        ),
        RawExpr::Finop(op, operands) => RawExpr::Finop(*op, fill_list(operands, replacement)),
        RawExpr::CmpChain(chain) => RawExpr::CmpChain(CmpChain {
            start: fill_holes(&chain.start, replacement),
            assertions: fill_comparisons(&chain.assertions, replacement),
        }),
        RawExpr::LogicChain(chain) => RawExpr::LogicChain(LogicChain {
            start: fill_holes(&chain.start, replacement),
            assertions: fill_logic(&chain.assertions, replacement),
        }),
        RawExpr::Seqop(op, range, body) => RawExpr::Seqop(
            *op,
            Range {
                index_variable: range.index_variable.duplicate(),
                from: fill_holes(&range.from, replacement),
                to: fill_holes(&range.to, replacement),
            },
            fill_holes(body, replacement),
        ),
        RawExpr::SetComprehension { variable, domain, predicate } => RawExpr::SetComprehension {
            variable: variable.duplicate(),
            domain: fill_type_holes(domain, replacement),
            predicate: fill_holes(predicate, replacement),
        },
        _ => {
            return deep_clone(expression);
        },
    };
    Expr::with_metadata(expression.meta().clone(), raw)
}

/// The type with every hole in its dimension expressions filled.
pub fn fill_type_holes<Metadata: Clone>(ty: &TypeExpr<Metadata>, replacement: &Expr<Metadata>) -> (result: TypeExpr<Metadata>)
    ensures
        type_view(result) == type_fill(type_view(*ty), replacement@),
    decreases *ty, 0nat,
{
    match ty {
        TypeExpr::Matrix(a, b) => TypeExpr::Matrix(fill_holes(a, replacement), fill_holes(b, replacement)),
        TypeExpr::Sequence(a, b) => TypeExpr::Sequence(fill_holes(a, replacement), fill_holes(b, replacement)),
        TypeExpr::SetOf(inner) => {
            let inner: &TypeExpr<Metadata> = inner;
            TypeExpr::SetOf(Box::new(fill_type_holes(inner, replacement)))
        },
        _ => crate::deep_clone::deep_clone_type(ty),
    }
}

/// The list with every hole filled.
pub fn fill_list<Metadata: Clone>(expressions: &Vec<Expr<Metadata>>, replacement: &Expr<Metadata>) -> (result: Vec<Expr<Metadata>>)
    ensures
        views(result@) == fill_seq(views(expressions@), replacement@),
    decreases expressions@, 0nat,
{
    let ghost all = views(expressions@);
    proof {
        lemma_views(expressions@);
    }
    let mut result: Vec<Expr<Metadata>> = Vec::new();
    let mut i: usize = 0;
    while i < expressions.len()
        invariant
            i <= expressions.len(),
            all == views(expressions@),
            all.len() == expressions.len(),
            forall|j: int| 0 <= j < expressions.len() ==> #[trigger] all[j] == expressions@[j]@,
            views(result@) == fill_seq(all.take(i as int), replacement@),
        decreases expressions.len() - i,
    {
        proof {
            assert(all.take(i + 1).drop_last() =~= all.take(i as int));
            assert(decreases_to!(expressions@ => expressions@[i as int]));
        }
        let ghost before = result@;
        result.push(fill_holes(&expressions[i], replacement));
        proof {
            assert(result@.drop_last() =~= before);
        }
        i = i + 1;
    }
    proof {
        assert(all.take(expressions.len() as int) =~= all);
    }
    result
}

/// The links with every hole filled.
pub fn fill_comparisons<Metadata: Clone>(links: &Vec<(Cmp, Expr<Metadata>)>, replacement: &Expr<Metadata>) -> (result: Vec<(Cmp, Expr<Metadata>)>)
    ensures
        comparison_views(result@) == fill_links(comparison_views(links@), replacement@),
    decreases links@, 0nat,
{
    let ghost all = comparison_views(links@);
    proof {
        lemma_comparison_views(links@);
    }
    let mut result: Vec<(Cmp, Expr<Metadata>)> = Vec::new();
    let mut i: usize = 0;
    while i < links.len()
        invariant
            i <= links.len(),
            all == comparison_views(links@),
            all.len() == links.len(),
            forall|j: int| 0 <= j < links.len() ==> #[trigger] all[j] == (links@[j].0, links@[j].1@),
            comparison_views(result@) == fill_links(all.take(i as int), replacement@),
        decreases links.len() - i,
    {
        proof {
            assert(all.take(i + 1).drop_last() =~= all.take(i as int));
            assert(decreases_to!(links@ => links@[i as int]));
        }
        let ghost before = result@;
        let (op, expression) = &links[i];
        result.push((*op, fill_holes(expression, replacement)));
        proof {
            assert(result@.drop_last() =~= before);
        }
        i = i + 1;
    }
    proof {
        assert(all.take(links.len() as int) =~= all);
    }
    result
}

/// The links with every hole filled.
pub fn fill_logic<Metadata: Clone>(links: &Vec<(Logic, Expr<Metadata>)>, replacement: &Expr<Metadata>) -> (result: Vec<(Logic, Expr<Metadata>)>)
    ensures
        logic_views(result@) == fill_links(logic_views(links@), replacement@),
    decreases links@, 0nat,
{
    let ghost all = logic_views(links@);
    proof {
        lemma_logic_views(links@);
    }
    let mut result: Vec<(Logic, Expr<Metadata>)> = Vec::new();
    let mut i: usize = 0;
    while i < links.len()
        invariant
            i <= links.len(),
            all == logic_views(links@),
            all.len() == links.len(),
            forall|j: int| 0 <= j < links.len() ==> #[trigger] all[j] == (links@[j].0, links@[j].1@),
            logic_views(result@) == fill_links(all.take(i as int), replacement@),
        decreases links.len() - i,
    {
        proof {
            assert(all.take(i + 1).drop_last() =~= all.take(i as int));
            assert(decreases_to!(links@ => links@[i as int]));
        }
        let ghost before = result@;
        let (op, expression) = &links[i];
        result.push((*op, fill_holes(expression, replacement)));
        proof {
            assert(result@.drop_last() =~= before);
        }
        i = i + 1;
    }
    proof {
        assert(all.take(links.len() as int) =~= all);
    }
    result
}


// ---------------------------------------------------------------------------
// Variables
// ---------------------------------------------------------------------------

/// Every variable named in the tree, binders included.
pub open spec fn variables(e: ExprView) -> Set<VariableView>
    decreases e, 0nat,
{
    match e {
        ExprView::Variable(v) => set![v],
        ExprView::StandardBasis(index, _) => variables(*index),
        ExprView::Type(t) => type_variables(t),
        ExprView::Matrix(_, _, elements) => list_variables(elements),
        ExprView::Monop(_, a) => variables(*a),
        ExprView::Binop(_, a, b) => variables(*a) + variables(*b),
        ExprView::Triop(_, a, b, c) => variables(*a) + variables(*b) + variables(*c),
        ExprView::Finop(_, operands) => list_variables(operands),
        ExprView::CmpChain(start, links) => variables(*start) + link_variables(links),
        ExprView::LogicChain(start, links) => variables(*start) + link_variables(links),
        ExprView::Seqop(_, v, from, to, body) => set![v] + variables(*from) + variables(*to) + variables(*body),
        ExprView::SetComprehension(v, domain, predicate) => set![v] + type_variables(domain) + variables(*predicate),
        _ => Set::empty(),
    }
}

/// Every variable named in the dimension expressions of a type.
pub open spec fn type_variables(t: TypeView) -> Set<VariableView>
    decreases t, 0nat,
{
    match t {
        TypeView::Matrix(a, b) => variables(*a) + variables(*b),
        TypeView::Sequence(a, b) => variables(*a) + variables(*b),
        TypeView::SetOf(inner) => type_variables(*inner),
        _ => Set::empty(),
    }
}

/// Every variable named in a list of trees.
pub open spec fn list_variables(s: Seq<ExprView>) -> Set<VariableView>
    decreases s, 1nat,
{
    if s.len() == 0 {
        Set::empty()
    } else {
        list_variables(s.drop_last()) + variables(s.last())
    }
}

/// Every variable named in the trees of a list of links.
pub open spec fn link_variables<O>(s: Seq<(O, ExprView)>) -> Set<VariableView>
    decreases s, 1nat,
{
    if s.len() == 0 {
        Set::empty()
    } else {
        link_variables(s.drop_last()) + variables(s.last().1)
    }
}

/// The models of the variables in a list.
pub open spec fn variable_set(s: Seq<Variable>) -> Set<VariableView>
    decreases s.len(),
{
    if s.len() == 0 {
        Set::empty()
    } else {
        variable_set(s.drop_last()).insert(s.last().view_variable())
    }
}

/// No two variables of the list are the same variable.
pub open spec fn distinct_variables(s: Seq<Variable>) -> bool {
    forall|i: int, j: int| 0 <= i < j < s.len() ==> s[i].view_variable() != s[j].view_variable()
}

/// A listed variable belongs to the list's set, and only listed ones do.
pub proof fn lemma_variable_set(s: Seq<Variable>)
    ensures
        forall|i: int| 0 <= i < s.len() ==> variable_set(s).contains(#[trigger] s[i].view_variable()),
        forall|v: VariableView| variable_set(s).contains(v) ==> exists|i: int| 0 <= i < s.len() && s[i].view_variable() == v,
    decreases s.len(),
{
    if s.len() > 0 {
        lemma_variable_set(s.drop_last());
        assert forall|v: VariableView| variable_set(s).contains(v) implies exists|i: int| 0 <= i < s.len() && s[i].view_variable() == v by {
            if v != s.last().view_variable() {
                assert(variable_set(s.drop_last()).contains(v));
                let i = choose|i: int| 0 <= i < s.drop_last().len() && s.drop_last()[i].view_variable() == v;
                assert(s.drop_last()[i] == s[i]);
                assert(0 <= i < s.len() && s[i].view_variable() == v);
            } else {
                assert(s[s.len() - 1].view_variable() == v);
            }
        }
        assert forall|i: int| 0 <= i < s.len() implies variable_set(s).contains(#[trigger] s[i].view_variable()) by {
            if i < s.len() - 1 {
                assert(s.drop_last()[i] == s[i]);
            }
        }
    }
}

/// Adds a variable to a list of distinct variables unless it is already
/// there.
pub fn insert_variable(variables: &mut Vec<Variable>, variable: &Variable)
    requires
        distinct_variables(old(variables)@),
    ensures
        distinct_variables(final(variables)@),
        variable_set(final(variables)@) == variable_set(old(variables)@).insert(variable.view_variable()),
{
    proof {
        lemma_variable_set(variables@);
    }
    let mut i: usize = 0;
    while i < variables.len()
        invariant
            i <= variables.len(),
            variables@ == old(variables)@,
            distinct_variables(variables@),
            forall|j: int| 0 <= j < variables.len() ==> variable_set(variables@).contains(#[trigger] variables@[j].view_variable()),
            forall|j: int| 0 <= j < i ==> variables@[j].view_variable() != variable.view_variable(),
        decreases variables.len() - i,
    {
        if variables[i].same(variable) {
            proof {
                assert(variable_set(variables@).contains(variables@[i as int].view_variable()));
                assert(variable_set(variables@).insert(variable.view_variable()) =~= variable_set(variables@));
            }
            return;
        }
        i = i + 1;
    }
    let ghost before = variables@;
    variables.push(variable.duplicate());
    proof {
        assert(variables@.drop_last() =~= before);
    }
}

/// Adds the variables of a tree.
pub fn collect_variables<Metadata>(expression: &Expr<Metadata>, out: &mut Vec<Variable>)
    requires
        distinct_variables(old(out)@),
    ensures
        distinct_variables(final(out)@),
        variable_set(final(out)@) == variable_set(old(out)@) + variables(expression@),
    decreases *expression, 0nat,
{
    let ghost start = out@;
    match expression.raw() {
        RawExpr::Variable(v) => {
            insert_variable(out, v);
        },
        RawExpr::StandardBasis { index, .. } => collect_variables(index, out),
        RawExpr::Type(ty) => collect_type_variables(ty, out),
        RawExpr::Matrix(matrix) => collect_list_variables(&matrix.elements, out),
        RawExpr::Monop(_, a) => collect_variables(a, out),
        RawExpr::Binop(_, a, b) => {
            collect_variables(a, out);
            collect_variables(b, out);
        },
        RawExpr::Triop(_, a, b, c) => {
            collect_variables(a, out);
            collect_variables(b, out);
            collect_variables(c, out);
        },
        RawExpr::Finop(_, operands) => collect_list_variables(operands, out),
        RawExpr::CmpChain(chain) => {
            collect_variables(&chain.start, out);
            collect_comparison_variables(&chain.assertions, out);
        },
        RawExpr::LogicChain(chain) => {
            collect_variables(&chain.start, out);
            collect_logic_variables(&chain.assertions, out);
        },
        RawExpr::Seqop(_, range, body) => {
            insert_variable(out, &range.index_variable);
            collect_variables(&range.from, out);
            collect_variables(&range.to, out);
            collect_variables(body, out);
        },
        RawExpr::SetComprehension { variable, domain, predicate } => {
            insert_variable(out, variable);
            collect_type_variables(domain, out);
            collect_variables(predicate, out);
        },
        _ => {},
    }
    proof {
        assert(variable_set(out@) =~= variable_set(start) + variables(expression@));
    }
}

/// Adds the variables of a type's dimension expressions.
pub fn collect_type_variables<Metadata>(ty: &TypeExpr<Metadata>, out: &mut Vec<Variable>)
    requires
        distinct_variables(old(out)@),
    ensures
        distinct_variables(final(out)@),
        variable_set(final(out)@) == variable_set(old(out)@) + type_variables(type_view(*ty)),
    decreases *ty, 0nat,
{
    let ghost start = out@;
    match ty {
        TypeExpr::Matrix(a, b) => {
            collect_variables(a, out);
            collect_variables(b, out);
        },
        TypeExpr::Sequence(a, b) => {
            collect_variables(a, out);
            collect_variables(b, out);
        },
        TypeExpr::SetOf(inner) => {
            let inner: &TypeExpr<Metadata> = inner;
            collect_type_variables(inner, out);
        },
        _ => {},
    }
    proof {
        assert(variable_set(out@) =~= variable_set(start) + type_variables(type_view(*ty)));
    }
}

/// Adds the variables of a list of trees.
pub fn collect_list_variables<Metadata>(expressions: &Vec<Expr<Metadata>>, out: &mut Vec<Variable>)
    requires
        distinct_variables(old(out)@),
    ensures
        distinct_variables(final(out)@),
        variable_set(final(out)@) == variable_set(old(out)@) + list_variables(views(expressions@)),
    decreases expressions@, 0nat,
{
    let ghost all = views(expressions@);
    let ghost start = out@;
    proof {
        lemma_views(expressions@);
        assert(variable_set(out@) =~= variable_set(start) + list_variables(all.take(0)));
    }
    let mut i: usize = 0;
    while i < expressions.len()
        invariant
            i <= expressions.len(),
            all == views(expressions@),
            all.len() == expressions.len(),
            forall|j: int| 0 <= j < expressions.len() ==> #[trigger] all[j] == expressions@[j]@,
            distinct_variables(out@),
            variable_set(out@) == variable_set(start) + list_variables(all.take(i as int)),
        decreases expressions.len() - i,
    {
        proof {
            assert(all.take(i + 1).drop_last() =~= all.take(i as int));
            assert(decreases_to!(expressions@ => expressions@[i as int]));
        }
        collect_variables(&expressions[i], out);
        proof {
            assert(variable_set(out@) =~= variable_set(start) + list_variables(all.take(i + 1)));
        }
        i = i + 1;
    }
    proof {
        assert(all.take(expressions.len() as int) =~= all);
    }
}

/// Adds the variables of the trees of a list of links.
pub fn collect_comparison_variables<Metadata>(links: &Vec<(Cmp, Expr<Metadata>)>, out: &mut Vec<Variable>)
    requires
        distinct_variables(old(out)@),
    ensures
        distinct_variables(final(out)@),
        variable_set(final(out)@) == variable_set(old(out)@) + link_variables(comparison_views(links@)),
    decreases links@, 0nat,
{
    let ghost all = comparison_views(links@);
    let ghost start = out@;
    proof {
        lemma_comparison_views(links@);
        assert(variable_set(out@) =~= variable_set(start) + link_variables(all.take(0)));
    }
    let mut i: usize = 0;
    while i < links.len()
        invariant
            i <= links.len(),
            all == comparison_views(links@),
            all.len() == links.len(),
            forall|j: int| 0 <= j < links.len() ==> #[trigger] all[j] == (links@[j].0, links@[j].1@),
            distinct_variables(out@),
            variable_set(out@) == variable_set(start) + link_variables(all.take(i as int)),
        decreases links.len() - i,
    {
        proof {
            assert(all.take(i + 1).drop_last() =~= all.take(i as int));
            assert(decreases_to!(links@ => links@[i as int]));
        }
        collect_variables(&links[i].1, out);
        proof {
            assert(variable_set(out@) =~= variable_set(start) + link_variables(all.take(i + 1)));
        }
        i = i + 1;
    }
    proof {
        assert(all.take(links.len() as int) =~= all);
    }
}

/// Adds the variables of the trees of a list of links.
pub fn collect_logic_variables<Metadata>(links: &Vec<(Logic, Expr<Metadata>)>, out: &mut Vec<Variable>)
    requires
        distinct_variables(old(out)@),
    ensures
        distinct_variables(final(out)@),
        variable_set(final(out)@) == variable_set(old(out)@) + link_variables(logic_views(links@)),
    decreases links@, 0nat,
{
    let ghost all = logic_views(links@);
    let ghost start = out@;
    proof {
        lemma_logic_views(links@);
        assert(variable_set(out@) =~= variable_set(start) + link_variables(all.take(0)));
    }
    let mut i: usize = 0;
    while i < links.len()
        invariant
            i <= links.len(),
            all == logic_views(links@),
            all.len() == links.len(),
            forall|j: int| 0 <= j < links.len() ==> #[trigger] all[j] == (links@[j].0, links@[j].1@),
            distinct_variables(out@),
            variable_set(out@) == variable_set(start) + link_variables(all.take(i as int)),
        decreases links.len() - i,
    {
        proof {
            assert(all.take(i + 1).drop_last() =~= all.take(i as int));
            assert(decreases_to!(links@ => links@[i as int]));
        }
        collect_variables(&links[i].1, out);
        proof {
            assert(variable_set(out@) =~= variable_set(start) + link_variables(all.take(i + 1)));
        }
        i = i + 1;
    }
    proof {
        assert(all.take(links.len() as int) =~= all);
    }
}

/// Every variable named in the trees, binders included, each listed once.
pub fn all_variables<Metadata>(expressions: &Vec<Expr<Metadata>>) -> (result: Vec<Variable>)
    ensures
        distinct_variables(result@),
        variable_set(result@) == list_variables(views(expressions@)),
{
    let mut result: Vec<Variable> = Vec::new();
    collect_list_variables(expressions, &mut result);
    proof {
        assert(variable_set(result@) =~= list_variables(views(expressions@)));
    }
    result
}


// ---------------------------------------------------------------------------
// Holeifications
// ---------------------------------------------------------------------------

/// Replacing a node by a hole never adds nodes, and replacing an existing
/// node leaves a hole in the tree.
pub proof fn lemma_holeify(e: ExprView, k: int)
    requires
        0 <= k,
    ensures
        size(holeify(e, k)) <= size(e),
        k < size(e) ==> has_hole(holeify(e, k)),
    decreases e, 0nat,
{
    if k > 0 {
        let j = k - 1;
        match e {
            ExprView::StandardBasis(index, d) => lemma_holeify(*index, j),
            ExprView::Type(t) => lemma_type_holeify(t, j),
            ExprView::Matrix(r, c, elements) => lemma_holeify_seq(elements, j),
            ExprView::Monop(op, a) => lemma_holeify(*a, j),
            ExprView::Binop(op, a, b) => {
                lemma_holeify(*a, j);
                if j >= size(*a) {
                    lemma_holeify(*b, j - size(*a));
                }
            },
            ExprView::Triop(op, a, b, c) => {
                lemma_holeify(*a, j);
                if j >= size(*a) {
                    lemma_holeify(*b, j - size(*a));
                    if j - size(*a) >= size(*b) {
                        lemma_holeify(*c, j - size(*a) - size(*b));
                    }
                }
            },
            ExprView::Finop(op, operands) => lemma_holeify_seq(operands, j),
            ExprView::CmpChain(start, links) => {
                lemma_holeify(*start, j);
                if j >= size(*start) {
                    lemma_holeify_links(links, j - size(*start));
                }
            },
            ExprView::LogicChain(start, links) => {
                lemma_holeify(*start, j);
                if j >= size(*start) {
                    lemma_holeify_links(links, j - size(*start));
                }
            },
            ExprView::Seqop(op, v, from, to, body) => {
                lemma_holeify(*from, j);
                if j >= size(*from) {
                    lemma_holeify(*to, j - size(*from));
                    if j - size(*from) >= size(*to) {
                        lemma_holeify(*body, j - size(*from) - size(*to));
                    }
                }
            },
            ExprView::SetComprehension(v, domain, predicate) => {
                lemma_type_holeify(domain, j);
                if j >= type_size(domain) {
                    lemma_holeify(*predicate, j - type_size(domain));
                }
            },
            _ => {},
        }
    }
}

/// The type form of `lemma_holeify`.
pub proof fn lemma_type_holeify(t: TypeView, k: int)
    requires
        0 <= k,
    ensures
        type_size(type_holeify(t, k)) <= type_size(t),
        k < type_size(t) ==> type_has_hole(type_holeify(t, k)),
    decreases t, 0nat,
{
    match t {
        TypeView::Matrix(r, c) => {
            lemma_holeify(*r, k);
            if k >= size(*r) {
                lemma_holeify(*c, k - size(*r));
            }
        },
        TypeView::Sequence(e, n) => {
            lemma_holeify(*e, k);
            if k >= size(*e) {
                lemma_holeify(*n, k - size(*e));
            }
        },
        TypeView::SetOf(inner) => lemma_type_holeify(*inner, k),
        _ => {},
    }
}

/// The list form of `lemma_holeify`.
pub proof fn lemma_holeify_seq(s: Seq<ExprView>, k: int)
    requires
        0 <= k,
    ensures
        sizes(holeify_seq(s, k)) <= sizes(s),
        k < sizes(s) ==> any_hole(holeify_seq(s, k)),
    decreases s, 1nat,
{
    if s.len() > 0 {
        let p = sizes(s.drop_last());
        if k < p {
            lemma_holeify_seq(s.drop_last(), k);
            assert(holeify_seq(s.drop_last(), k).push(s.last()).drop_last() =~= holeify_seq(s.drop_last(), k));
        } else if k - p < size(s.last()) {
            lemma_holeify(s.last(), k - p);
            assert(s.drop_last().push(holeify(s.last(), k - p)).drop_last() =~= s.drop_last());
        }
    }
}

/// The link form of `lemma_holeify`.
pub proof fn lemma_holeify_links<O>(s: Seq<(O, ExprView)>, k: int)
    requires
        0 <= k,
    ensures
        link_sizes(holeify_links(s, k)) <= link_sizes(s),
        k < link_sizes(s) ==> any_link_hole(holeify_links(s, k)),
    decreases s, 1nat,
{
    if s.len() > 0 {
        let p = link_sizes(s.drop_last());
        if k < p {
            lemma_holeify_links(s.drop_last(), k);
            assert(holeify_links(s.drop_last(), k).push(s.last()).drop_last() =~= holeify_links(s.drop_last(), k));
        } else if k - p < size(s.last().1) {
            lemma_holeify(s.last().1, k - p);
            assert(s.drop_last().push((s.last().0, holeify(s.last().1, k - p))).drop_last() =~= s.drop_last());
        }
    }
}

/// `model` is obtained from `e` by replacing one of its nodes by a hole,
/// and differs from `e`.
pub open spec fn is_holeification(e: ExprView, model: ExprView) -> bool {
    exists|k: int| 0 <= k < size(e) && #[trigger] holeify(e, k) == model && model != e
}

/// Whether some element of `found` has the model `model`.
fn listed<Metadata>(found: &Vec<Expr<Metadata>>, candidate: &Expr<Metadata>) -> (present: bool)
    ensures
        present == exists|i: int| 0 <= i < found.len() && (#[trigger] found@[i])@ == candidate@,
{
    let mut i: usize = 0;
    while i < found.len()
        invariant
            i <= found.len(),
            forall|j: int| 0 <= j < i ==> (#[trigger] found@[j])@ != candidate@,
        decreases found.len() - i,
    {
        if crate::equality::same_model(&found[i], candidate) {
            return true;
        }
        i = i + 1;
    }
    false
}

/// The unchanged expression, then every distinct expression obtained by
/// replacing exactly one node (the root included) with a hole, from most to
/// least specific: larger variants first, variants of equal size in the
/// preorder of their holes.
pub fn holeifications<Metadata: Clone + Default>(expression: &Expr<Metadata>) -> (result: Vec<Expr<Metadata>>)
    requires
        size(expression@) <= usize::MAX,
    ensures
        result.len() >= 1,
        result@[0]@ == expression@,
        forall|i: int| 1 <= i < result.len() ==> is_holeification(expression@, (#[trigger] result@[i])@),
        forall|i: int| 1 <= i < result.len() ==> has_hole((#[trigger] result@[i])@),
        forall|k: int| 0 <= k < size(expression@) && #[trigger] holeify(expression@, k) != expression@ ==>
            exists|i: int| 1 <= i < result.len() && (#[trigger] result@[i])@ == holeify(expression@, k),
        forall|i: int, j: int| 1 <= i < j < result.len() ==> size((#[trigger] result@[i])@) >= size((#[trigger] result@[j])@),
        forall|i: int, j: int| 0 <= i < j < result.len() ==> (#[trigger] result@[i])@ != (#[trigger] result@[j])@,
{
    let ghost e = expression@;
    let exact = deep_clone(expression);
    let total = node_count(expression);
    let mut result: Vec<Expr<Metadata>> = Vec::new();
    result.push(exact);
    proof {
        assert forall|k: int| 0 <= k < size(e) implies size(#[trigger] holeify(e, k)) <= size(e) by {
            lemma_holeify(e, k);
        }
    }
    // Variants of `width` nodes are gathered after all larger ones.
    let mut width: usize = total;
    while width > 0
        invariant
            width <= total,
            total == size(e),
            e == expression@,
            size(e) <= usize::MAX,
            result.len() >= 1,
            result@[0]@ == e,
            forall|i: int| 1 <= i < result.len() ==> is_holeification(e, (#[trigger] result@[i])@),
            forall|i: int| 1 <= i < result.len() ==> has_hole((#[trigger] result@[i])@),
            forall|i: int| 1 <= i < result.len() ==> size((#[trigger] result@[i])@) > width,
            forall|k: int| 0 <= k < size(e) && #[trigger] holeify(e, k) != e && size(holeify(e, k)) > width ==>
                exists|i: int| 1 <= i < result.len() && (#[trigger] result@[i])@ == holeify(e, k),
            forall|i: int, j: int| 1 <= i < j < result.len() ==> size((#[trigger] result@[i])@) >= size((#[trigger] result@[j])@),
            forall|i: int, j: int| 0 <= i < j < result.len() ==> (#[trigger] result@[i])@ != (#[trigger] result@[j])@,
        decreases width,
    {
        let ghost before = result@;
        let mut target: usize = 0;
        while target < total
            invariant
                width <= total,
                width > 0,
                target <= total,
                total == size(e),
                e == expression@,
                size(e) <= usize::MAX,
                before.len() >= 1,
                result.len() >= before.len(),
                forall|i: int| 0 <= i < before.len() ==> result@[i] == before[i],
                result@[0]@ == e,
                forall|i: int| 1 <= i < result.len() ==> is_holeification(e, (#[trigger] result@[i])@),
                forall|i: int| 1 <= i < result.len() ==> has_hole((#[trigger] result@[i])@),
                forall|i: int| 1 <= i < before.len() ==> size((#[trigger] result@[i])@) > width,
                forall|i: int| before.len() <= i < result.len() ==> size((#[trigger] result@[i])@) == width,
                forall|k: int| 0 <= k < size(e) && #[trigger] holeify(e, k) != e && size(holeify(e, k)) > width ==>
                    exists|i: int| 1 <= i < before.len() && (#[trigger] result@[i])@ == holeify(e, k),
                forall|k: int| 0 <= k < target && #[trigger] holeify(e, k) != e && size(holeify(e, k)) == width ==>
                    exists|i: int| 1 <= i < result.len() && (#[trigger] result@[i])@ == holeify(e, k),
                forall|i: int, j: int| 0 <= i < j < result.len() ==> (#[trigger] result@[i])@ != (#[trigger] result@[j])@,
            decreases total - target,
        {
            proof {
                lemma_holeify(e, target as int);
            }
            let variant = replace_node_with_hole(expression, target);
            let count = node_count(&variant);
            if count == width && !crate::equality::same_model(&variant, &result[0]) && !listed(&result, &variant) {
                let ghost prior = result@;
                result.push(variant);
                proof {
                    assert(result@[result.len() - 1]@ == holeify(e, target as int));
                    assert forall|i: int| 1 <= i < result.len() implies is_holeification(e, (#[trigger] result@[i])@) by {
                        if i < prior.len() {
                            assert(result@[i] == prior[i]);
                        } else {
                            assert(holeify(e, target as int) == result@[i]@);
                        }
                    }
                    assert forall|k: int| 0 <= k < target + 1 && #[trigger] holeify(e, k) != e && size(holeify(e, k)) == width implies
                        exists|i: int| 1 <= i < result.len() && (#[trigger] result@[i])@ == holeify(e, k) by {
                        if k < target {
                            let i = choose|i: int| 1 <= i < prior.len() && (#[trigger] prior[i])@ == holeify(e, k);
                            assert(result@[i] == prior[i]);
                        } else {
                            assert(result@[result.len() - 1]@ == holeify(e, k));
                        }
                    }
                    assert forall|k: int| 0 <= k < size(e) && #[trigger] holeify(e, k) != e && size(holeify(e, k)) > width implies
                        exists|i: int| 1 <= i < before.len() && (#[trigger] result@[i])@ == holeify(e, k) by {
                        let i = choose|i: int| 1 <= i < before.len() && (#[trigger] prior[i])@ == holeify(e, k);
                        assert(result@[i] == prior[i]);
                    }
                }
            } else {
                proof {
                    assert forall|k: int| 0 <= k < target + 1 && #[trigger] holeify(e, k) != e && size(holeify(e, k)) == width implies
                        exists|i: int| 1 <= i < result.len() && (#[trigger] result@[i])@ == holeify(e, k) by {
                        if k == target {
                            let i = choose|i: int| 0 <= i < result.len() && (#[trigger] result@[i])@ == holeify(e, k);
                            assert(i != 0);
                        }
                    }
                }
            }
            target = target + 1;
        }
        width = width - 1;
    }
    proof {
        assert forall|k: int| 0 <= k < size(e) && #[trigger] holeify(e, k) != e implies
            exists|i: int| 1 <= i < result.len() && (#[trigger] result@[i])@ == holeify(e, k) by {
            lemma_holeify(e, k);
            assert(size(holeify(e, k)) >= 1) by {
                lemma_size_positive(holeify(e, k));
            }
        }
    }
    result
}


/// A member of a list has no more nodes than the list.
pub proof fn lemma_member_size(s: Seq<ExprView>, i: int)
    requires
        0 <= i < s.len(),
    ensures
        size(s[i]) <= sizes(s),
        max_bound_index(s[i]) <= max_bound_index_seq(s),
    decreases s.len(),
{
    if i < s.len() - 1 {
        lemma_member_size(s.drop_last(), i);
        assert(s.drop_last()[i] == s[i]);
    }
}

/// A link's tree has no more nodes than the links.
pub proof fn lemma_link_member_size<O>(s: Seq<(O, ExprView)>, i: int)
    requires
        0 <= i < s.len(),
    ensures
        size(s[i].1) <= link_sizes(s),
        max_bound_index(s[i].1) <= max_bound_index_links(s),
    decreases s.len(),
{
    if i < s.len() - 1 {
        lemma_link_member_size(s.drop_last(), i);
        assert(s.drop_last()[i] == s[i]);
    }
}

/// The larger of two naturals.
pub open spec fn larger(a: nat, b: nat) -> nat {
    if a < b { b } else { a }
}

/// The largest de Bruijn index in the tree (0 when there is none).
pub open spec fn max_bound_index(e: ExprView) -> nat
    decreases e, 0nat,
{
    match e {
        ExprView::BoundNatural(d) => d as nat,
        ExprView::StandardBasis(index, _) => max_bound_index(*index),
        ExprView::Type(t) => max_bound_index_type(t),
        ExprView::Matrix(_, _, elements) => max_bound_index_seq(elements),
        ExprView::Monop(_, a) => max_bound_index(*a),
        ExprView::Binop(_, a, b) => larger(max_bound_index(*a), max_bound_index(*b)),
        ExprView::Triop(_, a, b, c) => larger(max_bound_index(*a), larger(max_bound_index(*b), max_bound_index(*c))),
        ExprView::Finop(_, operands) => max_bound_index_seq(operands),
        ExprView::CmpChain(start, links) => larger(max_bound_index(*start), max_bound_index_links(links)),
        ExprView::LogicChain(start, links) => larger(max_bound_index(*start), max_bound_index_links(links)),
        ExprView::Seqop(_, _, from, to, body) => larger(max_bound_index(*from), larger(max_bound_index(*to), max_bound_index(*body))),
        ExprView::SetComprehension(_, domain, predicate) => larger(max_bound_index_type(domain), max_bound_index(*predicate)),
        _ => 0,
    }
}

/// The largest de Bruijn index in the dimension expressions of a type.
pub open spec fn max_bound_index_type(t: TypeView) -> nat
    decreases t, 0nat,
{
    match t {
        TypeView::Matrix(a, b) => larger(max_bound_index(*a), max_bound_index(*b)),
        TypeView::Sequence(a, b) => larger(max_bound_index(*a), max_bound_index(*b)),
        TypeView::SetOf(inner) => max_bound_index_type(*inner),
        _ => 0,
    }
}

/// The largest de Bruijn index in a list of trees.
pub open spec fn max_bound_index_seq(s: Seq<ExprView>) -> nat
    decreases s, 1nat,
{
    if s.len() == 0 {
        0
    } else {
        larger(max_bound_index_seq(s.drop_last()), max_bound_index(s.last()))
    }
}

/// The largest de Bruijn index in the trees of a list of links.
pub open spec fn max_bound_index_links<O>(s: Seq<(O, ExprView)>) -> nat
    decreases s, 1nat,
{
    if s.len() == 0 {
        0
    } else {
        larger(max_bound_index_links(s.drop_last()), max_bound_index(s.last().1))
    }
}


/// The measures of a comparison chain whose start is a hole are those of its
/// links, and no larger than those of the chain with any start.
pub proof fn lemma_comparison_chain_measures(start: ExprView, links: Seq<(Cmp, ExprView)>)
    ensures
        size(ExprView::CmpChain(Box::new(ExprView::Hole), links)) == 2 + link_sizes(links),
        size(ExprView::CmpChain(Box::new(ExprView::Hole), links)) <= size(ExprView::CmpChain(Box::new(start), links)),
        max_bound_index(ExprView::CmpChain(Box::new(ExprView::Hole), links)) == max_bound_index_links(links),
        max_bound_index(ExprView::CmpChain(Box::new(ExprView::Hole), links)) <= max_bound_index(ExprView::CmpChain(Box::new(start), links)),
{
    assert(size(ExprView::Hole) == 1);
    assert(max_bound_index(ExprView::Hole) == 0);
    lemma_size_positive(start);
}

/// The measures of a logic chain whose start is a hole are those of its
/// links, and no larger than those of the chain with any start.
pub proof fn lemma_logic_chain_measures(start: ExprView, links: Seq<(Logic, ExprView)>)
    ensures
        size(ExprView::LogicChain(Box::new(ExprView::Hole), links)) == 2 + link_sizes(links),
        size(ExprView::LogicChain(Box::new(ExprView::Hole), links)) <= size(ExprView::LogicChain(Box::new(start), links)),
        max_bound_index(ExprView::LogicChain(Box::new(ExprView::Hole), links)) == max_bound_index_links(links),
        max_bound_index(ExprView::LogicChain(Box::new(ExprView::Hole), links)) <= max_bound_index(ExprView::LogicChain(Box::new(start), links)),
{
    assert(size(ExprView::Hole) == 1);
    assert(max_bound_index(ExprView::Hole) == 0);
    lemma_size_positive(start);
}

} // verus!
