//! Symbolic linear-algebra expressions: a tree representation, its
//! mathematical model, and verified transformations over it.
use std::rc::Rc;
use vstd::prelude::*;

pub mod concrete;
pub mod context;
pub mod deep_clone;
pub mod elaboration;
pub mod enumerable_envspec;
pub mod equality;
pub mod expression_utils;
pub mod formula;
pub mod natural;
pub mod operator_visitors;
pub mod preprocessing;
pub mod quantifier_lowering;
pub mod roots;
pub mod set_lowering;
pub mod text;
pub mod logic_lowering;
pub mod metadata;
pub mod matrix_values;
pub mod to_tex;
pub mod type_expr;
pub mod type_resolver;
pub mod unification;
pub mod view;

use crate::view::{comparison_views, logic_views, type_view, views, ParameterView, VariableView};

verus! {

/// A natural-valued parameter standing for the dimension of a
/// context-dependent matrix constant; its identity is its nonce.
#[derive(Clone, Copy, Debug, PartialEq, Eq, Structural, Hash, PartialOrd, Ord)]
pub struct ImplicitDimension(pub u64);

/// The source of fresh implicit dimensions: every dimension it hands out
/// carries a nonce that it has never handed out before.
#[derive(Debug)]
pub struct DimensionSupply {
    next: u64,
}

impl DimensionSupply {
    pub closed spec fn next_nonce(&self) -> u64 {
        self.next
    }

    pub fn new() -> (supply: Self)
        ensures
            supply.next_nonce() == 0,
    {
        DimensionSupply { next: 0 }
    }
}

impl ImplicitDimension {
    pub open spec fn nonce(self) -> u64 {
        self.0
    }

    /// The next nonce of `supply`; the supply then moves on, wrapping around
    /// after the largest nonce.
    pub fn fresh(supply: &mut DimensionSupply) -> (dimension: Self)
        ensures
            dimension.nonce() == old(supply).next_nonce(),
            final(supply).next_nonce() == nonce_after(old(supply).next_nonce()),
    {
        let nonce = supply.next;
        supply.next = if nonce == u64::MAX {
            0
        } else {
            nonce + 1
        };
        ImplicitDimension(nonce)
    }

    pub fn from_nonce(nonce: u64) -> (dimension: Self)
        ensures
            dimension.nonce() == nonce,
    {
        ImplicitDimension(nonce)
    }

    pub fn nonce_id(self) -> (id: u64)
        ensures
            id == self.nonce(),
    {
        self.0
    }

    pub fn z3_name(self) -> (name: String)
        ensures
            name@ == implicit_dimension_name(self.nonce()),
    {
        let mut name = String::from_str("__implicit_dimension_");
        let digits = crate::text::decimal(self.0);
        name.append(digits.as_str());
        name
    }
}

/// The nonce a supply hands out after `nonce`.
pub open spec fn nonce_after(nonce: u64) -> u64 {
    if nonce == u64::MAX {
        0
    } else {
        (nonce + 1) as u64
    }
}

/// The nonce a supply hands out after `steps` more dimensions from `nonce`.
pub open spec fn nonce_after_steps(nonce: u64, steps: nat) -> u64
    decreases steps,
{
    if steps == 0 {
        nonce
    } else {
        nonce_after(nonce_after_steps(nonce, (steps - 1) as nat))
    }
}

/// After `steps` dimensions a supply has moved `steps` nonces on, modulo
/// the number of nonces.
proof fn lemma_nonce_after_steps(nonce: u64, steps: nat)
    ensures
        nonce_after_steps(nonce, steps) as int == (nonce + steps) % 0x1_0000_0000_0000_0000,
    decreases steps,
{
    if steps > 0 {
        lemma_nonce_after_steps(nonce, (steps - 1) as nat);
        let m: int = 0x1_0000_0000_0000_0000;
        let previous = (nonce + steps - 1) % m;
        assert(((previous + 1) % m) == (nonce + steps) % m) by (nonlinear_arith)
            requires
                previous == (nonce + steps - 1) % m,
                m == 0x1_0000_0000_0000_0000,
        {
            vstd::arithmetic::div_mod::lemma_add_mod_noop(nonce + steps - 1, 1, m);
        }
    }
}

/// Fresh dimensions are distinct: the dimensions that one supply hands out
/// over fewer calls than there are nonces are pairwise distinct.
pub proof fn law_fresh_dimensions_are_distinct(nonce: u64, earlier: nat, later: nat)
    requires
        earlier < later < 0x1_0000_0000_0000_0000,
    ensures
        nonce_after_steps(nonce, earlier) != nonce_after_steps(nonce, later),
{
    lemma_nonce_after_steps(nonce, earlier);
    lemma_nonce_after_steps(nonce, later);
    let m: int = 0x1_0000_0000_0000_0000;
    let a: int = nonce + earlier;
    let b: int = nonce + later;
    assert(a % m != b % m) by (nonlinear_arith)
        requires
            m == 0x1_0000_0000_0000_0000,
            0 <= a < b,
            b - a < m,
    {
        vstd::arithmetic::div_mod::lemma_fundamental_div_mod(a, m);
        vstd::arithmetic::div_mod::lemma_fundamental_div_mod(b, m);
        if a % m == b % m {
            assert(m * (b / m - a / m) == b - a);
            if b / m - a / m <= 0 {
                assert(m * (b / m - a / m) <= 0);
            } else {
                assert(m * (b / m - a / m) >= m);
            }
        }
    }
}

/// Fresh dimensions increase: of two dimensions one supply hands out before
/// its nonces wrap around, the later one has the larger nonce, one larger
/// per dimension in between.
pub proof fn law_fresh_dimensions_increase(nonce: u64, earlier: nat, later: nat)
    requires
        earlier < later,
        nonce + later < 0x1_0000_0000_0000_0000,
    ensures
        nonce_after_steps(nonce, earlier) < nonce_after_steps(nonce, later),
        nonce_after_steps(nonce, later) == nonce_after_steps(nonce, earlier) + (later - earlier),
{
    lemma_nonce_after_steps(nonce, earlier);
    lemma_nonce_after_steps(nonce, later);
    let m: int = 0x1_0000_0000_0000_0000;
    vstd::arithmetic::div_mod::lemma_small_mod((nonce + earlier) as nat, m as nat);
    vstd::arithmetic::div_mod::lemma_small_mod((nonce + later) as nat, m as nat);
}

/// The solver name of an implicit dimension.
pub open spec fn implicit_dimension_name(nonce: u64) -> Seq<char> {
    "__implicit_dimension_"@ + crate::text::decimal_digits(nonce as nat)
}

/// A de Bruijn reference to an enclosing sequence position: index 0 is the
/// innermost binder.
#[derive(Clone, Copy, Debug, PartialEq, Eq, Structural, Hash, PartialOrd, Ord)]
pub struct DeBruijnIndex(pub usize);

impl DeBruijnIndex {
    pub open spec fn index(self) -> usize {
        self.0
    }

    pub fn new(index: usize) -> (result: Self)
        ensures
            result.index() == index,
    {
        DeBruijnIndex(index)
    }

    pub fn get(self) -> (index: usize)
        ensures
            index == self.index(),
    {
        self.0
    }
}

#[derive(Clone, Debug, PartialEq, Eq, Hash, PartialOrd, Ord)]
pub enum NaturalParameter {
    Variable(Variable),
    ImplicitDimension(ImplicitDimension),
}

impl NaturalParameter {
    pub open spec fn view_parameter(&self) -> ParameterView {
        match self {
            NaturalParameter::Variable(variable) => ParameterView::Variable(variable.view_variable()),
            NaturalParameter::ImplicitDimension(dimension) => ParameterView::Implicit(dimension.nonce()),
        }
    }

    pub fn z3_name(&self) -> (name: String)
        ensures
            name@ == match self.view_parameter() {
                ParameterView::Variable(v) => variable_name(v),
                ParameterView::Implicit(nonce) => implicit_dimension_name(nonce),
            },
    {
        match self {
            NaturalParameter::Variable(variable) => variable.z3_name(),
            NaturalParameter::ImplicitDimension(dimension) => dimension.z3_name(),
        }
    }

    /// Whether two parameters name the same natural.
    pub fn same(&self, other: &NaturalParameter) -> (same: bool)
        ensures
            same == (self.view_parameter() == other.view_parameter()),
    {
        match (self, other) {
            (NaturalParameter::Variable(a), NaturalParameter::Variable(b)) => a.same(b),
            (NaturalParameter::ImplicitDimension(a), NaturalParameter::ImplicitDimension(b)) => {
                a.0 == b.0
            },
            _ => false,
        }
    }
}

#[derive(Clone, Debug, PartialEq, Eq)]
pub enum NaturalEvaluationError {
    MissingAssignment(NaturalParameter),
    UnsupportedSyntax(&'static str),
    EmptyOperation(&'static str),
    NotANumeral,
    Overflow,
    UnboundNatural(DeBruijnIndex),
}

#[derive(PartialEq, Eq, Hash, PartialOrd, Ord, Debug)]
pub enum TypeExpr<Metadata> {
    Bool,
    Nat,
    Int,
    Real,
    Matrix(Expr<Metadata>, Expr<Metadata>),
    Sequence(Expr<Metadata>, Expr<Metadata>),
    SetOf(Box<TypeExpr<Metadata>>),
}

/// A total assignment of naturals to the parameters it lists; the first
/// entry for a parameter is the one that counts.
#[derive(Clone, Default, Debug, PartialEq, Eq)]
pub struct Environment {
    pub natural_assignment: Vec<(NaturalParameter, u64)>,
}

#[derive(PartialEq, Eq, Hash, PartialOrd, Ord, Clone, Debug)]
pub struct Variable {
    pub name: String,
    pub non_numeric_subscript: String,
    pub annotations: Vec<Annotation>,
}

impl Variable {
    pub open spec fn view_variable(&self) -> VariableView {
        VariableView {
            name: self.name@,
            subscript: self.non_numeric_subscript@,
            annotations: self.annotations@,
        }
    }

    pub fn new(name: &str) -> (variable: Self)
        ensures
            variable.view_variable() == (VariableView {
                name: name@,
                subscript: Seq::empty(),
                annotations: Seq::empty(),
            }),
    {
        Variable {
            name: String::from_str(name),
            non_numeric_subscript: String::new(),
            annotations: Vec::new(),
        }
    }

    /// A copy of this variable with the same model.
    pub fn duplicate(&self) -> (copy: Self)
        ensures
            copy.view_variable() == self.view_variable(),
    {
        let mut annotations: Vec<Annotation> = Vec::new();
        let mut i: usize = 0;
        while i < self.annotations.len()
            invariant
                i <= self.annotations.len(),
                annotations@ == self.annotations@.take(i as int),
            decreases self.annotations.len() - i,
        {
            annotations.push(self.annotations[i]);
            i = i + 1;
            proof {
                assert(annotations@ =~= self.annotations@.take(i as int));
            }
        }
        proof {
            assert(annotations@ =~= self.annotations@);
        }
        Variable {
            name: self.name.clone(),
            non_numeric_subscript: self.non_numeric_subscript.clone(),
            annotations,
        }
    }

    /// Whether two variables are the same variable.
    pub fn same(&self, other: &Variable) -> (same: bool)
        ensures
            same == (self.view_variable() == other.view_variable()),
    {
        if self.name != other.name || self.non_numeric_subscript != other.non_numeric_subscript {
            return false;
        }
        if self.annotations.len() != other.annotations.len() {
            return false;
        }
        let mut i: usize = 0;
        while i < self.annotations.len()
            invariant
                i <= self.annotations.len(),
                self.annotations.len() == other.annotations.len(),
                forall|j: int| 0 <= j < i ==> self.annotations@[j] == other.annotations@[j],
            decreases self.annotations.len() - i,
        {
            if self.annotations[i] != other.annotations[i] {
                return false;
            }
            i = i + 1;
        }
        proof {
            assert(self.annotations@ =~= other.annotations@);
        }
        true
    }

    /// The solver name: the base name decorated by its accents, then the
    /// textual subscript, then one prime per prime annotation.
    pub fn z3_name(&self) -> (name: String)
        ensures
            name@ == variable_name(self.view_variable()),
    {
        let mut name = self.decorated_name();
        if !self.non_numeric_subscript.as_str().is_empty() {
            name.append("_{");
            name.append(self.non_numeric_subscript.as_str());
            name.append("}");
        }
        let primes = self.prime_marks();
        name.append(primes.as_str());
        name
    }

    /// The base name wrapped in its accents, innermost first.
    pub fn decorated_name(&self) -> (name: String)
        ensures
            name@ == decorate(self.name@, self.annotations@),
    {
        let mut name = self.name.clone();
        let mut i: usize = 0;
        while i < self.annotations.len()
            invariant
                i <= self.annotations.len(),
                name@ == decorate(self.name@, self.annotations@.take(i as int)),
            decreases self.annotations.len() - i,
        {
            let decorated = match self.annotations[i] {
                Annotation::Hat => wrap_accent("\\hat{", &name),
                Annotation::Tilde => wrap_accent("\\tilde{", &name),
                Annotation::Arrow => wrap_accent("\\vec{", &name),
                Annotation::Prime => name.clone(),
            };
            proof {
                assert(self.annotations@.take(i + 1).drop_last() =~= self.annotations@.take(i as int));
            }
            name = decorated;
            i = i + 1;
        }
        proof {
            assert(self.annotations@.take(self.annotations.len() as int) =~= self.annotations@);
        }
        name
    }

    /// One prime mark per prime annotation.
    pub fn prime_marks(&self) -> (marks: String)
        ensures
            marks@ == primes(self.annotations@),
    {
        let mut name = String::new();
        let ghost with_subscript = name@;
        let mut j: usize = 0;
        while j < self.annotations.len()
            invariant
                j <= self.annotations.len(),
                name@ == with_subscript + primes(self.annotations@.take(j as int)),
            decreases self.annotations.len() - j,
        {
            if self.annotations[j] == Annotation::Prime {
                name.append("^{\\prime}");
            }
            proof {
                assert(self.annotations@.take(j + 1).drop_last() =~= self.annotations@.take(j as int));
            }
            j = j + 1;
        }
        proof {
            assert(self.annotations@.take(self.annotations.len() as int) =~= self.annotations@);
        }
        name
    }
}

fn wrap_accent(command: &str, inner: &String) -> (result: String)
    ensures
        result@ == command@ + inner@ + "}"@,
{
    let mut result = String::from_str(command);
    result.append(inner.as_str());
    result.append("}");
    result
}

/// The accent decorations of a name, applied innermost first.
pub open spec fn decorate(name: Seq<char>, annotations: Seq<Annotation>) -> Seq<char>
    decreases annotations.len(),
{
    if annotations.len() == 0 {
        name
    } else {
        let inner = decorate(name, annotations.drop_last());
        match annotations.last() {
            Annotation::Hat => "\\hat{"@ + inner + "}"@,
            Annotation::Tilde => "\\tilde{"@ + inner + "}"@,
            Annotation::Arrow => "\\vec{"@ + inner + "}"@,
            Annotation::Prime => inner,
        }
    }
}

/// One `^{\prime}` per prime annotation.
pub open spec fn primes(annotations: Seq<Annotation>) -> Seq<char>
    decreases annotations.len(),
{
    if annotations.len() == 0 {
        Seq::empty()
    } else {
        primes(annotations.drop_last()) + if annotations.last() == Annotation::Prime {
            "^{\\prime}"@
        } else {
            Seq::empty()
        }
    }
}

/// The solver name of a variable.
pub open spec fn variable_name(v: VariableView) -> Seq<char> {
    decorate(v.name, v.annotations) + (if v.subscript.len() == 0 {
        Seq::empty()
    } else {
        "_{"@ + v.subscript + "}"@
    }) + primes(v.annotations)
}

#[derive(PartialEq, Eq, Hash, PartialOrd, Ord, Clone, Copy, Debug, Structural)]
#[non_exhaustive]
pub enum Annotation {
    Hat,
    Tilde,
    Arrow,
    Prime,
}

#[derive(Clone, Copy, PartialEq, Eq, Hash, PartialOrd, Ord, Debug, Structural)]
#[non_exhaustive]
pub enum Cmp {
    Eq,
    Ne,
    Lt,
    Gt,
    Le,
    Ge,
}

#[derive(Clone, Copy, PartialEq, Eq, Hash, PartialOrd, Ord, Debug, Structural)]
#[non_exhaustive]
pub enum Logic {
    Iff,
    Imp,
}

#[derive(Clone, Copy, PartialEq, Eq, Hash, PartialOrd, Ord, Debug, Structural)]
#[non_exhaustive]
pub enum Monop {
    Trace,
    Det,
    Diag,
    Neg,
    Inverse,
    Norm1,
    Norm2,
    NormInfty,
    NormFrob,
    Transpose,
    Nul,
    Range,
}

#[derive(Clone, Copy, PartialEq, Eq, Hash, PartialOrd, Ord, Debug, Structural)]
#[non_exhaustive]
pub enum Binop {
    Div,
    Power,
    InnerProd,
    Cast,
    ElementOf,
    InDomain,
    SingleSubscript,
}

#[derive(Clone, Copy, PartialEq, Eq, Hash, PartialOrd, Ord, Debug, Structural)]
#[non_exhaustive]
pub enum Triop {
    DoubleSubscript,
}

#[derive(Clone, Copy, PartialEq, Eq, Hash, PartialOrd, Ord, Debug, Structural)]
#[non_exhaustive]
pub enum Finop {
    Plus,
    Times,
    And,
    Or,
    Forall,
    Exists,
    Max,
    Min,
    SeqLiteral,
}

#[derive(Clone, Copy, PartialEq, Eq, Hash, PartialOrd, Ord, Debug, Structural)]
#[non_exhaustive]
pub enum SeqOp {
    Sum,
    Prod,
    Mapped,
}

/// A shared, immutable expression node.
#[derive(PartialEq, Eq, Hash, PartialOrd, Ord, Debug)]
pub struct Expr<Metadata>(pub Rc<MetaExpr<Metadata>>);

impl<Metadata> Clone for Expr<Metadata> {
    /// Another handle on the same node; the metadata need not be cloneable.
    fn clone(&self) -> (copy: Self)
        ensures
            copy == *self,
    {
        Expr(rc_clone(&self.0))
    }
}

impl<Metadata> std::ops::Deref for Expr<Metadata> {
    type Target = MetaExpr<Metadata>;

    fn deref(&self) -> (node: &MetaExpr<Metadata>)
        ensures
            *node == self.node(),
    {
        &self.0
    }
}

impl<Metadata> Expr<Metadata> {
    /// The node this expression points to.
    pub open spec fn node(self) -> MetaExpr<Metadata> {
        *self.0
    }

    pub fn with_metadata(meta: Metadata, raw: RawExpr<Metadata>) -> (expression: Self)
        ensures
            expression.node() == (MetaExpr { meta, raw }),
    {
        Expr(Rc::new(MetaExpr { meta, raw }))
    }

    /// Mutable access to the node, available only while this handle is the
    /// node's sole owner.
    pub fn get_mut(&mut self) -> (node: Option<&mut MetaExpr<Metadata>>)
        ensures
            node matches Some(n) ==> *n == old(self).node() && final(self).node() == *final(n),
            node is None ==> *final(self) == *old(self),
    {
        rc_get_mut(&mut self.0)
    }

    /// The node's payload.
    pub fn raw(&self) -> (raw: &RawExpr<Metadata>)
        ensures
            *raw == self.node().raw,
    {
        &self.0.raw
    }

    /// The node's metadata.
    pub fn meta(&self) -> (meta: &Metadata)
        ensures
            *meta == self.node().meta,
    {
        &self.0.meta
    }

    /// Another handle on the same node.
    pub fn share(&self) -> (copy: Self)
        ensures
            copy == *self,
    {
        Expr(rc_clone(&self.0))
    }

    /// The same tree with every node's metadata replaced by its default.
    pub fn with_default_metadata<NewMetadata: Default>(&self) -> (expression: Expr<NewMetadata>)
        ensures
            expression@ == self@,
            crate::metadata::default_everywhere(expression),
        decreases *self, 0nat,
    {
        let raw = match &self.0.raw {
            RawExpr::Hole => RawExpr::Hole,
            RawExpr::Ellipsis => RawExpr::Ellipsis,
            RawExpr::ImplicitDimension(dimension) => RawExpr::ImplicitDimension(*dimension),
            RawExpr::BoundNatural(index) => RawExpr::BoundNatural(*index),
            RawExpr::IdentityMatrix { dimension } => RawExpr::IdentityMatrix { dimension: *dimension },
            RawExpr::StandardBasis { index, dimension } => RawExpr::StandardBasis {
                index: index.with_default_metadata(),
                dimension: *dimension,
            },
            RawExpr::ZeroMatrix { rows, cols } => RawExpr::ZeroMatrix { rows: *rows, cols: *cols },
            RawExpr::Type(ty) => RawExpr::Type(ty.with_default_metadata()),
            RawExpr::Variable(variable) => RawExpr::Variable(variable.duplicate()),
            RawExpr::NatLiteral(value) => RawExpr::NatLiteral(*value),
            RawExpr::Matrix(matrix) => RawExpr::Matrix(Matrix {
                rows: matrix.rows,
                cols: matrix.cols,
                elements: default_metadata_all(&matrix.elements),
            }),
            RawExpr::Monop(op, expression) => RawExpr::Monop(*op, expression.with_default_metadata()),
            RawExpr::Binop(op, left, right) => RawExpr::Binop(
                *op,
                left.with_default_metadata(),
                right.with_default_metadata(),
            ),
            RawExpr::Triop(op, first, second, third) => RawExpr::Triop(
                *op,
                first.with_default_metadata(),
                second.with_default_metadata(),
                third.with_default_metadata(),
            ),
            RawExpr::Finop(op, expressions) => RawExpr::Finop(*op, default_metadata_all(expressions)),
            RawExpr::CmpChain(chain) => RawExpr::CmpChain(CmpChain {
                start: chain.start.with_default_metadata(),
                assertions: default_metadata_comparisons(&chain.assertions),
            }),
            RawExpr::LogicChain(chain) => RawExpr::LogicChain(LogicChain {
                start: chain.start.with_default_metadata(),
                assertions: default_metadata_logic(&chain.assertions),
            }),
            RawExpr::Seqop(op, range, body) => RawExpr::Seqop(
                *op,
                Range {
                    index_variable: range.index_variable.duplicate(),
                    from: range.from.with_default_metadata(),
                    to: range.to.with_default_metadata(),
                },
                body.with_default_metadata(),
            ),
            RawExpr::SetComprehension { variable, domain, predicate } => RawExpr::SetComprehension {
                variable: variable.duplicate(),
                domain: domain.with_default_metadata(),
                predicate: predicate.with_default_metadata(),
            },
        };
        Expr::new(raw)
    }
}

fn default_metadata_all<Metadata, NewMetadata: Default>(expressions: &Vec<Expr<Metadata>>) -> (result: Vec<Expr<NewMetadata>>)
    ensures
        views(result@) == views(expressions@),
        crate::metadata::all_default_everywhere(result@),
    decreases expressions@, 0nat,
{
    let mut result: Vec<Expr<NewMetadata>> = Vec::new();
    let mut i: usize = 0;
    while i < expressions.len()
        invariant
            i <= expressions.len(),
            views(result@) == views(expressions@.take(i as int)),
            crate::metadata::all_default_everywhere(result@),
        decreases expressions.len() - i,
    {
        proof {
            assert(expressions@.take(i + 1).drop_last() =~= expressions@.take(i as int));
            assert(decreases_to!(expressions@ => expressions@[i as int]));
        }
        let ghost before = result@;
        result.push(expressions[i].with_default_metadata());
        proof {
            assert(result@.drop_last() =~= before);
        }
        i = i + 1;
    }
    proof {
        assert(expressions@.take(expressions.len() as int) =~= expressions@);
    }
    result
}

fn default_metadata_comparisons<Metadata, NewMetadata: Default>(assertions: &Vec<(Cmp, Expr<Metadata>)>) -> (result: Vec<(Cmp, Expr<NewMetadata>)>)
    ensures
        comparison_views(result@) == comparison_views(assertions@),
        crate::metadata::comparisons_default_everywhere(result@),
    decreases assertions@, 0nat,
{
    let mut result: Vec<(Cmp, Expr<NewMetadata>)> = Vec::new();
    let mut i: usize = 0;
    while i < assertions.len()
        invariant
            i <= assertions.len(),
            comparison_views(result@) == comparison_views(assertions@.take(i as int)),
            crate::metadata::comparisons_default_everywhere(result@),
        decreases assertions.len() - i,
    {
        proof {
            assert(assertions@.take(i + 1).drop_last() =~= assertions@.take(i as int));
            assert(decreases_to!(assertions@ => assertions@[i as int]));
        }
        let ghost before = result@;
        let (op, expression) = &assertions[i];
        result.push((*op, expression.with_default_metadata()));
        proof {
            assert(result@.drop_last() =~= before);
        }
        i = i + 1;
    }
    proof {
        assert(assertions@.take(assertions.len() as int) =~= assertions@);
    }
    result
}

fn default_metadata_logic<Metadata, NewMetadata: Default>(assertions: &Vec<(Logic, Expr<Metadata>)>) -> (result: Vec<(Logic, Expr<NewMetadata>)>)
    ensures
        logic_views(result@) == logic_views(assertions@),
        crate::metadata::logic_default_everywhere(result@),
    decreases assertions@, 0nat,
{
    let mut result: Vec<(Logic, Expr<NewMetadata>)> = Vec::new();
    let mut i: usize = 0;
    while i < assertions.len()
        invariant
            i <= assertions.len(),
            logic_views(result@) == logic_views(assertions@.take(i as int)),
            crate::metadata::logic_default_everywhere(result@),
        decreases assertions.len() - i,
    {
        proof {
            assert(assertions@.take(i + 1).drop_last() =~= assertions@.take(i as int));
            assert(decreases_to!(assertions@ => assertions@[i as int]));
        }
        let ghost before = result@;
        let (op, expression) = &assertions[i];
        result.push((*op, expression.with_default_metadata()));
        proof {
            assert(result@.drop_last() =~= before);
        }
        i = i + 1;
    }
    proof {
        assert(assertions@.take(assertions.len() as int) =~= assertions@);
    }
    result
}

impl<Metadata> Clone for TypeExpr<Metadata> {
    fn clone(&self) -> (copy: Self)
        ensures
            copy == *self,
    {
        self.duplicate()
    }
}

impl<Metadata> TypeExpr<Metadata> {
    /// The same type, sharing its dimension expressions.
    pub fn duplicate(&self) -> (copy: Self)
        ensures
            copy == *self,
        decreases *self,
    {
        match self {
            TypeExpr::Bool => TypeExpr::Bool,
            TypeExpr::Nat => TypeExpr::Nat,
            TypeExpr::Int => TypeExpr::Int,
            TypeExpr::Real => TypeExpr::Real,
            TypeExpr::Matrix(rows, cols) => TypeExpr::Matrix(rows.share(), cols.share()),
            TypeExpr::Sequence(element, size) => TypeExpr::Sequence(element.share(), size.share()),
            TypeExpr::SetOf(element) => {
                let inner: &TypeExpr<Metadata> = element;
                TypeExpr::SetOf(Box::new(inner.duplicate()))
            },
        }
    }

    /// The same type with every node's metadata replaced by its default.
    pub fn with_default_metadata<NewMetadata: Default>(&self) -> (ty: TypeExpr<NewMetadata>)
        ensures
            type_view(ty) == type_view(*self),
            crate::metadata::type_default_everywhere(ty),
        decreases *self, 0nat,
    {
        match self {
            TypeExpr::Bool => TypeExpr::Bool,
            TypeExpr::Nat => TypeExpr::Nat,
            TypeExpr::Int => TypeExpr::Int,
            TypeExpr::Real => TypeExpr::Real,
            TypeExpr::Matrix(rows, cols) => TypeExpr::Matrix(
                rows.with_default_metadata(),
                cols.with_default_metadata(),
            ),
            TypeExpr::Sequence(element, size) => TypeExpr::Sequence(
                element.with_default_metadata(),
                size.with_default_metadata(),
            ),
            TypeExpr::SetOf(element) => {
                let inner: &TypeExpr<Metadata> = element;
                TypeExpr::SetOf(Box::new(inner.with_default_metadata()))
            },
        }
    }
}

impl<Metadata: Default> Expr<Metadata> {
    pub fn new(raw: RawExpr<Metadata>) -> (expression: Self)
        ensures
            expression.node().raw == raw,
            call_ensures(Metadata::default, (), expression.node().meta),
    {
        Self::with_metadata(Metadata::default(), raw)
    }
}

/// Another handle on the same shared node.
#[verifier::external_body]
fn rc_clone<T>(value: &Rc<T>) -> (copy: Rc<T>)
    ensures
        copy == *value,
{
    Rc::clone(value)
}

/// The shared value, when no other handle on it exists.
#[verifier::external_body]
fn rc_get_mut<T>(value: &mut Rc<T>) -> (unique: Option<&mut T>)
    ensures
        unique matches Some(v) ==> *v == **old(value) && **final(value) == *final(v),
        unique is None ==> *final(value) == *old(value),
{
    Rc::get_mut(value)
}

#[derive(PartialEq, Eq, Hash, PartialOrd, Ord, Debug)]
pub struct MetaExpr<Metadata> {
    pub meta: Metadata,
    pub raw: RawExpr<Metadata>,
}

#[derive(Clone, PartialEq, Eq, Hash, PartialOrd, Ord, Debug)]
pub struct Range<Metadata> {
    pub index_variable: Variable,
    pub from: Expr<Metadata>,
    pub to: Expr<Metadata>,
}

#[derive(PartialEq, Eq, Hash, PartialOrd, Ord, Debug)]
pub struct CmpChain<Metadata> {
    pub start: Expr<Metadata>,
    pub assertions: Vec<(Cmp, Expr<Metadata>)>,
}

/// A sequence of adjacent logical relationships.
///
/// The chain `P implies Q implies R` means `(P implies Q) and
/// (Q implies R)`. It is neither associative implication nor an assertion
/// that `P` is true.
#[derive(PartialEq, Eq, Hash, PartialOrd, Ord, Debug)]
pub struct LogicChain<Metadata> {
    pub start: Expr<Metadata>,
    pub assertions: Vec<(Logic, Expr<Metadata>)>,
}

/// A row-major matrix of cells.
#[derive(Clone, PartialEq, Eq, Hash, PartialOrd, Ord, Debug)]
pub struct Matrix<Cell> {
    pub rows: usize,
    pub cols: usize,
    pub elements: Vec<Cell>,
}

impl<Cell> Matrix<Cell> {
    /// Whether the element vector holds exactly `rows * cols` cells.
    pub open spec fn well_formed(&self) -> bool {
        self.elements.len() == self.rows * self.cols
    }

    /// The cell in row `i` and column `j`.
    pub fn at(&self, i: usize, j: usize) -> (cell: &Cell)
        requires
            self.well_formed(),
            i < self.rows,
            j < self.cols,
        ensures
            *cell == self.elements@[i * self.cols + j],
    {
        proof {
            assert(i * self.cols + j < self.rows * self.cols) by (nonlinear_arith)
                requires
                    i < self.rows,
                    j < self.cols,
            ;
        }
        &self.elements[i * self.cols + j]
    }
}

#[derive(PartialEq, Eq, Hash, PartialOrd, Ord, Debug)]
pub enum RawExpr<Metadata> {
    Hole,
    /// A `\ldots` placeholder in a listed pattern.
    Ellipsis,
    /// An internal natural-valued leaf used to preserve a context-dependent
    /// matrix constant's dimension through symbolic typing.
    ImplicitDimension(ImplicitDimension),
    /// An internal de Bruijn reference to a one-based sequence position.
    BoundNatural(DeBruijnIndex),
    IdentityMatrix { dimension: ImplicitDimension },
    StandardBasis { index: Expr<Metadata>, dimension: ImplicitDimension },
    ZeroMatrix { rows: ImplicitDimension, cols: ImplicitDimension },
    Type(TypeExpr<Metadata>),
    Variable(Variable),
    NatLiteral(u64),
    Matrix(Matrix<Expr<Metadata>>),
    Monop(Monop, Expr<Metadata>),
    Binop(Binop, Expr<Metadata>, Expr<Metadata>),
    Triop(Triop, Expr<Metadata>, Expr<Metadata>, Expr<Metadata>),
    Finop(Finop, Vec<Expr<Metadata>>),
    CmpChain(CmpChain<Metadata>),
    LogicChain(LogicChain<Metadata>),
    Seqop(SeqOp, Range<Metadata>, Expr<Metadata>),
    /// `{ variable in domain : predicate }`.
    SetComprehension { variable: Variable, domain: TypeExpr<Metadata>, predicate: Expr<Metadata> },
}

} // verus!
