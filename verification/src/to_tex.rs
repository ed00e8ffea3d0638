//! Rendering expressions as TeX.
//!
//! The rendering is given by `latex`, a function of the expression's model;
//! the executable writers append exactly that text. Operands are wrapped in
//! `\left(`..`\right)` where they bind less tightly than their operator.
use vstd::prelude::*;

use crate::text::{decimal, decimal_digits};
use crate::view::{comparison_views, logic_views, type_view, views, ExprView, TypeView, VariableView};
use crate::{
    decorate, primes, Binop, Cmp, CmpChain, Expr, Finop, Logic, LogicChain, Matrix, Monop, RawExpr,
    SeqOp, Triop, TypeExpr, Variable,
};

verus! {

/// Binding strength of quantifiers, the loosest.
pub const FORALL: u8 = 0;
/// Binding strength of logic chains.
pub const LOGIC: u8 = 1;
/// Binding strength of disjunctions.
pub const OR: u8 = 2;
/// Binding strength of conjunctions.
pub const AND: u8 = 3;
/// Binding strength of comparisons and memberships.
pub const COMPARISON: u8 = 4;
/// Binding strength of sequence literals.
pub const SEQUENCE: u8 = 5;
/// Binding strength of sums.
pub const ADDITION: u8 = 6;
/// Binding strength of products and quotients.
pub const MULTIPLICATION: u8 = 7;
/// Binding strength of negation and `diag`.
pub const PREFIX: u8 = 8;
/// Binding strength of powers, inverses and transposes.
pub const POWER: u8 = 9;
/// Binding strength of everything that needs no grouping.
pub const ATOM: u8 = 10;

/// How tightly the root of an expression binds.
pub open spec fn rank(e: ExprView) -> u8 {
    match e {
        ExprView::Finop(op, _) => match op {
            Finop::Forall | Finop::Exists => FORALL,
            Finop::Or => OR,
            Finop::And => AND,
            Finop::SeqLiteral => SEQUENCE,
            Finop::Plus => ADDITION,
            Finop::Times => MULTIPLICATION,
            _ => ATOM,
        },
        ExprView::LogicChain(_, _) => LOGIC,
        ExprView::CmpChain(_, _) => COMPARISON,
        ExprView::Binop(op, _, _) => match op {
            Binop::ElementOf | Binop::InDomain => COMPARISON,
            Binop::Div => MULTIPLICATION,
            Binop::Power => POWER,
            _ => ATOM,
        },
        ExprView::Monop(op, _) => match op {
            Monop::Neg | Monop::Diag => PREFIX,
            Monop::Inverse | Monop::Transpose => POWER,
            _ => ATOM,
        },
        _ => ATOM,
    }
}

/// The text, in parentheses when `grouped`.
pub open spec fn group(text: Seq<char>, grouped: bool) -> Seq<char> {
    if grouped {
        "\\left("@ + text + "\\right)"@
    } else {
        text
    }
}

/// A variable: its accented name, its textual subscript, its primes.
pub open spec fn variable_tex(v: VariableView) -> Seq<char> {
    decorate(v.name, v.annotations) + (if v.subscript.len() == 0 {
        Seq::empty()
    } else {
        "_{\\text{"@ + v.subscript + "}}"@
    }) + primes(v.annotations)
}

/// The text before the operand of a unary operator.
pub open spec fn monop_prefix(op: Monop) -> Seq<char> {
    match op {
        Monop::Trace => "\\operatorname{tr}("@,
        Monop::Det => "\\det("@,
        Monop::Diag => "\\operatorname{diag}("@,
        Monop::Nul => "\\operatorname{Nul}("@,
        Monop::Range => "\\operatorname{Range}("@,
        Monop::Neg => "-"@,
        Monop::Inverse => ""@,
        Monop::Transpose => ""@,
        _ => "\\left\\lVert "@,
    }
}

/// The text after the operand of a unary operator.
pub open spec fn monop_suffix(op: Monop) -> Seq<char> {
    match op {
        Monop::Trace | Monop::Det | Monop::Diag | Monop::Nul | Monop::Range => ")"@,
        Monop::Neg => ""@,
        Monop::Inverse => "^{-1}"@,
        Monop::Transpose => "^\\top"@,
        Monop::Norm1 => " \\right\\rVert_{1}"@,
        Monop::Norm2 => " \\right\\rVert_{2}"@,
        Monop::NormInfty => " \\right\\rVert_{\\infty}"@,
        Monop::NormFrob => " \\right\\rVert_{F}"@,
    }
}

/// Whether the operand of a unary operator is parenthesized.
pub open spec fn monop_grouped(op: Monop, operand: ExprView) -> bool {
    match op {
        Monop::Neg => rank(operand) <= ADDITION,
        Monop::Inverse | Monop::Transpose => rank(operand) < POWER,
        _ => false,
    }
}

/// Whether the operand of a membership is parenthesized.
pub open spec fn is_membership(op: Binop) -> bool {
    op == Binop::ElementOf || op == Binop::InDomain
}

/// A binary operator applied to the texts of its operands.
pub open spec fn binop_tex(op: Binop, a: Seq<char>, b: Seq<char>) -> Seq<char> {
    match op {
        Binop::Div => "\\frac{"@ + a + "}{"@ + b + "}"@,
        Binop::Power => a + "^{"@ + b + "}"@,
        Binop::InnerProd => "\\langle "@ + a + ", "@ + b + " \\rangle"@,
        Binop::Cast => "\\operatorname{cast}("@ + a + ", "@ + b + ")"@,
        Binop::ElementOf | Binop::InDomain => a + " \\in "@ + b,
        Binop::SingleSubscript => a + "_{"@ + b + "}"@,
    }
}

/// The text before the operands of a finite operator.
pub open spec fn finop_prefix(op: Finop) -> Seq<char> {
    match op {
        Finop::Forall => "\\forall "@,
        Finop::Exists => "\\exists "@,
        Finop::Max => "\\max("@,
        Finop::Min => "\\min("@,
        _ => ""@,
    }
}

/// The text after the operands of a finite operator.
pub open spec fn finop_suffix(op: Finop) -> Seq<char> {
    match op {
        Finop::Max | Finop::Min => ")"@,
        _ => ""@,
    }
}

/// The text between two operands of a finite operator.
pub open spec fn finop_separator(op: Finop) -> Seq<char> {
    match op {
        Finop::Plus => " + "@,
        Finop::Times => " "@,
        Finop::And => " \\land "@,
        Finop::Or => " \\lor "@,
        _ => ", "@,
    }
}

/// Whether an operand of a finite operator is parenthesized.
pub open spec fn finop_grouped(op: Finop, operand: ExprView) -> bool {
    match op {
        Finop::Plus => rank(operand) < ADDITION,
        Finop::Times => rank(operand) < MULTIPLICATION || operand matches ExprView::Monop(Monop::Neg, _),
        Finop::And => rank(operand) < AND,
        Finop::Or => rank(operand) < OR,
        Finop::SeqLiteral => rank(operand) <= SEQUENCE,
        Finop::Forall | Finop::Exists => rank(operand) == FORALL,
        _ => false,
    }
}

pub open spec fn comparison_symbol(op: Cmp) -> Seq<char> {
    match op {
        Cmp::Eq => "="@,
        Cmp::Ne => "\\ne"@,
        Cmp::Lt => "<"@,
        Cmp::Gt => ">"@,
        Cmp::Le => "\\le"@,
        Cmp::Ge => "\\ge"@,
    }
}

pub open spec fn logic_symbol(op: Logic) -> Seq<char> {
    match op {
        Logic::Iff => "\\iff"@,
        Logic::Imp => "\\implies"@,
    }
}

pub open spec fn seqop_name(op: SeqOp) -> Seq<char> {
    match op {
        SeqOp::Sum => "\\sum"@,
        SeqOp::Prod => "\\prod"@,
        SeqOp::Mapped => "\\operatorname{map}"@,
    }
}

/// The separator before the cell at flat position `index` of a matrix with
/// `cols` columns: a row break at the start of each row but the first.
pub open spec fn cell_separator(index: int, cols: int) -> Seq<char> {
    if index == 0 {
        Seq::empty()
    } else if index % cols == 0 {
        " \\\\ "@
    } else {
        " & "@
    }
}

/// The TeX text of an expression; `verbose` also shows the internal
/// dimension nonces and bound-natural indices.
pub open spec fn latex(e: ExprView, verbose: bool) -> Seq<char>
    decreases e, 0nat,
{
    match e {
        ExprView::SetComprehension(v, domain, predicate) => "\\left\\{"@ + variable_tex(v) + " \\in "@
            + latex_type(domain, verbose) + " : "@ + latex(*predicate, verbose) + "\\right\\}"@,
        ExprView::Hole => "\\square"@,
        ExprView::Ellipsis => "\\ldots"@,
        ExprView::ImplicitDimension(nonce) => "@"@ + decimal_digits(nonce as nat),
        ExprView::BoundNatural(index) => "\\#"@ + decimal_digits(index as nat),
        ExprView::IdentityMatrix(nonce) => if verbose {
            "I_{@"@ + decimal_digits(nonce as nat) + "}"@
        } else {
            "I"@
        },
        ExprView::StandardBasis(index, nonce) => "e_{"@ + latex(*index, verbose) + (if verbose {
            ",@"@ + decimal_digits(nonce as nat)
        } else {
            Seq::empty()
        }) + "}"@,
        ExprView::ZeroMatrix(rows, cols) => if verbose {
            "\\mathbb{0}_{@"@ + decimal_digits(rows as nat) + ",@"@ + decimal_digits(cols as nat) + "}"@
        } else {
            "\\mathbb{0}"@
        },
        ExprView::Type(t) => latex_type(t, verbose),
        ExprView::Variable(v) => variable_tex(v),
        ExprView::NatLiteral(value) => decimal_digits(value as nat),
        ExprView::Matrix(_, cols, elements) => "\\begin{bmatrix}"@ + latex_cells(elements, cols as int, verbose)
            + "\\end{bmatrix}"@,
        ExprView::Monop(op, x) => monop_prefix(op) + group(latex(*x, verbose), monop_grouped(op, *x))
            + monop_suffix(op),
        ExprView::Binop(op, a, b) => binop_tex(
            op,
            group(
                latex(*a, verbose),
                (op == Binop::Power && rank(*a) < POWER) || (is_membership(op) && rank(*a) <= COMPARISON),
            ),
            group(latex(*b, verbose), is_membership(op) && rank(*b) <= COMPARISON),
        ),
        ExprView::Triop(_, a, b, c) => latex(*a, verbose) + "_{"@ + latex(*b, verbose) + ","@ + latex(*c, verbose)
            + "}"@,
        ExprView::Finop(op, operands) => finop_prefix(op) + finop_terms(op, operands, verbose) + finop_suffix(op),
        ExprView::CmpChain(start, links) => group(latex(*start, verbose), rank(*start) <= COMPARISON)
            + comparison_links_tex(links, verbose),
        ExprView::LogicChain(start, links) => group(latex(*start, verbose), rank(*start) <= LOGIC)
            + logic_links_tex(links, verbose),
        ExprView::Seqop(op, v, from, to, body) => seqop_name(op) + "_{"@ + v.name + "="@ + latex(*from, verbose)
            + "}^{"@ + latex(*to, verbose) + "}"@ + group(latex(*body, verbose), rank(*body) <= ADDITION),
    }
}

/// The TeX text of a type.
pub open spec fn latex_type(t: TypeView, verbose: bool) -> Seq<char>
    decreases t, 0nat,
{
    match t {
        TypeView::SetOf(element) => "\\operatorname{Set}("@ + latex_type(*element, verbose) + ")"@,
        TypeView::Bool => "\\mathbb{B}"@,
        TypeView::Nat => "\\mathbb{N}"@,
        TypeView::Int => "\\mathbb{Z}"@,
        TypeView::Real => "\\mathbb{R}"@,
        TypeView::Matrix(rows, cols) => if *cols == ExprView::NatLiteral(1) {
            "\\mathbb{R}^{"@ + latex(*rows, verbose) + "}"@
        } else {
            "\\mathbb{R}^{"@ + latex(*rows, verbose) + " \\times "@ + latex(*cols, verbose) + "}"@
        },
        TypeView::Sequence(element, length) => "\\operatorname{Seq}_{"@ + latex(*length, verbose) + "}("@
            + latex(*element, verbose) + ")"@,
    }
}

/// The cells of a row-major matrix with `cols` columns.
pub open spec fn latex_cells(s: Seq<ExprView>, cols: int, verbose: bool) -> Seq<char>
    decreases s, 1nat,
{
    if s.len() == 0 {
        Seq::empty()
    } else {
        latex_cells(s.drop_last(), cols, verbose) + cell_separator(s.len() - 1, cols) + latex(s.last(), verbose)
    }
}

/// The operands of a finite operator.
pub open spec fn finop_terms(op: Finop, s: Seq<ExprView>, verbose: bool) -> Seq<char>
    decreases s, 1nat,
{
    if s.len() == 0 {
        Seq::empty()
    } else {
        finop_terms(op, s.drop_last(), verbose) + finop_term(op, s.last(), s.len() - 1, verbose)
    }
}

/// The operand at `index` of a finite operator, with the separator before
/// it; a negated summand after the first is written as a subtraction.
pub open spec fn finop_term(op: Finop, x: ExprView, index: int, verbose: bool) -> Seq<char>
    decreases x, 2nat,
{
    match x {
        ExprView::Monop(Monop::Neg, inner) => if op == Finop::Plus && index > 0 {
            " - "@ + group(latex(*inner, verbose), rank(*inner) <= ADDITION)
        } else {
            plain_term(op, x, index, verbose)
        },
        _ => plain_term(op, x, index, verbose),
    }
}

/// The operand at `index` of a finite operator after its separator.
pub open spec fn plain_term(op: Finop, x: ExprView, index: int, verbose: bool) -> Seq<char>
    decreases x, 1nat,
{
    (if index > 0 {
        finop_separator(op)
    } else {
        Seq::empty()
    }) + group(latex(x, verbose), finop_grouped(op, x))
}

/// The links of a comparison chain.
pub open spec fn comparison_links_tex(s: Seq<(Cmp, ExprView)>, verbose: bool) -> Seq<char>
    decreases s, 1nat,
{
    if s.len() == 0 {
        Seq::empty()
    } else {
        comparison_links_tex(s.drop_last(), verbose) + " "@ + comparison_symbol(s.last().0) + " "@ + group(
            latex(s.last().1, verbose),
            rank(s.last().1) <= COMPARISON,
        )
    }
}

/// The links of a logic chain.
pub open spec fn logic_links_tex(s: Seq<(Logic, ExprView)>, verbose: bool) -> Seq<char>
    decreases s, 1nat,
{
    if s.len() == 0 {
        Seq::empty()
    } else {
        logic_links_tex(s.drop_last(), verbose) + " "@ + logic_symbol(s.last().0) + " "@ + group(
            latex(s.last().1, verbose),
            rank(s.last().1) <= LOGIC,
        )
    }
}

/// Whether the expression can be rendered: internal leaves only in verbose
/// mode, matrices whose cell count matches their shape, sequence literals
/// of at least two elements.
pub open spec fn renderable(e: ExprView, verbose: bool) -> bool
    decreases e, 0nat,
{
    match e {
        ExprView::ImplicitDimension(_) => verbose,
        ExprView::BoundNatural(_) => verbose,
        ExprView::StandardBasis(index, _) => renderable(*index, verbose),
        ExprView::Type(t) => renderable_type(t, verbose),
        ExprView::Matrix(rows, cols, elements) => elements.len() == rows * cols && (rows == 0) == (cols == 0)
            && renderable_seq(elements, verbose),
        ExprView::Monop(_, x) => renderable(*x, verbose),
        ExprView::Binop(_, a, b) => renderable(*a, verbose) && renderable(*b, verbose),
        ExprView::Triop(_, a, b, c) => renderable(*a, verbose) && renderable(*b, verbose) && renderable(*c, verbose),
        ExprView::Finop(op, operands) => (op == Finop::SeqLiteral ==> operands.len() >= 2) && renderable_seq(
            operands,
            verbose,
        ),
        ExprView::CmpChain(start, links) => renderable(*start, verbose) && renderable_links(links, verbose),
        ExprView::LogicChain(start, links) => renderable(*start, verbose) && renderable_links(links, verbose),
        ExprView::Seqop(_, _, from, to, body) => renderable(*from, verbose) && renderable(*to, verbose)
            && renderable(*body, verbose),
        ExprView::SetComprehension(_, domain, predicate) => renderable_type(domain, verbose) && renderable(
            *predicate,
            verbose,
        ),
        _ => true,
    }
}

/// `renderable` for the dimension expressions of a type.
pub open spec fn renderable_type(t: TypeView, verbose: bool) -> bool
    decreases t, 0nat,
{
    match t {
        TypeView::SetOf(element) => renderable_type(*element, verbose),
        TypeView::Matrix(rows, cols) => renderable(*rows, verbose) && renderable(*cols, verbose),
        TypeView::Sequence(element, length) => renderable(*element, verbose) && renderable(*length, verbose),
        _ => true,
    }
}

/// `renderable` for every tree of a list.
pub open spec fn renderable_seq(s: Seq<ExprView>, verbose: bool) -> bool
    decreases s, 1nat,
{
    s.len() == 0 || (renderable_seq(s.drop_last(), verbose) && renderable(s.last(), verbose))
}

/// `renderable` for every tree of a list of chain links.
pub open spec fn renderable_links<O>(s: Seq<(O, ExprView)>, verbose: bool) -> bool
    decreases s, 1nat,
{
    s.len() == 0 || (renderable_links(s.drop_last(), verbose) && renderable(s.last().1, verbose))
}

proof fn lemma_renderable_member(s: Seq<ExprView>, verbose: bool, i: int)
    requires
        renderable_seq(s, verbose),
        0 <= i < s.len(),
    ensures
        renderable(s[i], verbose),
    decreases s.len(),
{
    if i < s.len() - 1 {
        lemma_renderable_member(s.drop_last(), verbose, i);
    }
}

proof fn lemma_renderable_link_member<O>(s: Seq<(O, ExprView)>, verbose: bool, i: int)
    requires
        renderable_links(s, verbose),
        0 <= i < s.len(),
    ensures
        renderable(s[i].1, verbose),
    decreases s.len(),
{
    if i < s.len() - 1 {
        lemma_renderable_link_member(s.drop_last(), verbose, i);
    }
}

/// A rendering of an expression, shown on demand.
pub struct AsLatex<Metadata> {
    e: Expr<Metadata>,
    verbose: bool,
}

impl<Metadata> AsLatex<Metadata> {
    /// The model of the expression to render.
    pub closed spec fn expression(&self) -> ExprView {
        self.e@
    }

    /// Whether internal nonces and indices are shown.
    pub closed spec fn is_verbose(&self) -> bool {
        self.verbose
    }

    /// The rendered text.
    pub fn to_string(&self) -> (text: String)
        requires
            renderable(self.expression(), self.is_verbose()),
        ensures
            text@ == latex(self.expression(), self.is_verbose()),
    {
        let mut text = String::new();
        write_expr(&mut text, &self.e, self.verbose);
        text
    }
}

impl<Metadata> Expr<Metadata> {
    /// The ordinary rendering of this expression.
    pub fn as_latex(&self) -> (rendering: AsLatex<Metadata>)
        ensures
            rendering.expression() == self@,
            !rendering.is_verbose(),
    {
        AsLatex { e: self.share(), verbose: false }
    }

    /// The rendering that also shows internal dimension nonces and
    /// bound-natural indices.
    pub fn as_latex_verbose(&self) -> (rendering: AsLatex<Metadata>)
        ensures
            rendering.expression() == self@,
            rendering.is_verbose(),
    {
        AsLatex { e: self.share(), verbose: true }
    }
}

/// The ordinary TeX text of an expression.
pub fn expr<Metadata>(e: &Expr<Metadata>) -> (text: String)
    requires
        renderable(e@, false),
    ensures
        text@ == latex(e@, false),
{
    let mut text = String::new();
    write_expr(&mut text, e, false);
    text
}

fn rank_of<Metadata>(e: &Expr<Metadata>) -> (r: u8)
    ensures
        r == rank(e@),
{
    match e.raw() {
        RawExpr::Finop(op, _) => match op {
            Finop::Forall | Finop::Exists => FORALL,
            Finop::Or => OR,
            Finop::And => AND,
            Finop::SeqLiteral => SEQUENCE,
            Finop::Plus => ADDITION,
            Finop::Times => MULTIPLICATION,
            _ => ATOM,
        },
        RawExpr::LogicChain(_) => LOGIC,
        RawExpr::CmpChain(_) => COMPARISON,
        RawExpr::Binop(op, _, _) => match op {
            Binop::ElementOf | Binop::InDomain => COMPARISON,
            Binop::Div => MULTIPLICATION,
            Binop::Power => POWER,
            _ => ATOM,
        },
        RawExpr::Monop(op, _) => match op {
            Monop::Neg | Monop::Diag => PREFIX,
            Monop::Inverse | Monop::Transpose => POWER,
            _ => ATOM,
        },
        _ => ATOM,
    }
}

fn write_grouped<Metadata>(out: &mut String, e: &Expr<Metadata>, grouped: bool, verbose: bool)
    requires
        renderable(e@, verbose),
    ensures
        final(out)@ == old(out)@ + group(latex(e@, verbose), grouped),
    decreases *e, 3nat,
{
    if grouped {
        out.append("\\left(");
    }
    write_expr(out, e, verbose);
    if grouped {
        out.append("\\right)");
    }
}

fn write_decimal(out: &mut String, value: u64)
    ensures
        final(out)@ == old(out)@ + decimal_digits(value as nat),
{
    let digits = decimal(value);
    out.append(digits.as_str());
}

fn write_variable(out: &mut String, v: &Variable)
    ensures
        final(out)@ == old(out)@ + variable_tex(v.view_variable()),
{
    let name = v.decorated_name();
    out.append(name.as_str());
    if !v.non_numeric_subscript.as_str().is_empty() {
        out.append("_{\\text{");
        out.append(v.non_numeric_subscript.as_str());
        out.append("}}");
    }
    let marks = v.prime_marks();
    out.append(marks.as_str());
}

fn monop_prefix_text(op: Monop) -> (text: &'static str)
    ensures
        text@ == monop_prefix(op),
{
    match op {
        Monop::Trace => "\\operatorname{tr}(",
        Monop::Det => "\\det(",
        Monop::Diag => "\\operatorname{diag}(",
        Monop::Nul => "\\operatorname{Nul}(",
        Monop::Range => "\\operatorname{Range}(",
        Monop::Neg => "-",
        Monop::Inverse => "",
        Monop::Transpose => "",
        _ => "\\left\\lVert ",
    }
}

fn monop_suffix_text(op: Monop) -> (text: &'static str)
    ensures
        text@ == monop_suffix(op),
{
    match op {
        Monop::Trace | Monop::Det | Monop::Diag | Monop::Nul | Monop::Range => ")",
        Monop::Neg => "",
        Monop::Inverse => "^{-1}",
        Monop::Transpose => "^\\top",
        Monop::Norm1 => " \\right\\rVert_{1}",
        Monop::Norm2 => " \\right\\rVert_{2}",
        Monop::NormInfty => " \\right\\rVert_{\\infty}",
        Monop::NormFrob => " \\right\\rVert_{F}",
    }
}

fn finop_prefix_text(op: Finop) -> (text: &'static str)
    ensures
        text@ == finop_prefix(op),
{
    match op {
        Finop::Forall => "\\forall ",
        Finop::Exists => "\\exists ",
        Finop::Max => "\\max(",
        Finop::Min => "\\min(",
        _ => "",
    }
}

fn finop_suffix_text(op: Finop) -> (text: &'static str)
    ensures
        text@ == finop_suffix(op),
{
    match op {
        Finop::Max | Finop::Min => ")",
        _ => "",
    }
}

fn finop_separator_text(op: Finop) -> (text: &'static str)
    ensures
        text@ == finop_separator(op),
{
    match op {
        Finop::Plus => " + ",
        Finop::Times => " ",
        Finop::And => " \\land ",
        Finop::Or => " \\lor ",
        _ => ", ",
    }
}

fn comparison_symbol_text(op: Cmp) -> (text: &'static str)
    ensures
        text@ == comparison_symbol(op),
{
    match op {
        Cmp::Eq => "=",
        Cmp::Ne => "\\ne",
        Cmp::Lt => "<",
        Cmp::Gt => ">",
        Cmp::Le => "\\le",
        Cmp::Ge => "\\ge",
    }
}

fn logic_symbol_text(op: Logic) -> (text: &'static str)
    ensures
        text@ == logic_symbol(op),
{
    match op {
        Logic::Iff => "\\iff",
        Logic::Imp => "\\implies",
    }
}

fn seqop_name_text(op: SeqOp) -> (text: &'static str)
    ensures
        text@ == seqop_name(op),
{
    match op {
        SeqOp::Sum => "\\sum",
        SeqOp::Prod => "\\prod",
        SeqOp::Mapped => "\\operatorname{map}",
    }
}

/// Appends the TeX text of an expression.
#[verifier::rlimit(100)]
#[verifier::spinoff_prover]
fn write_expr<Metadata>(out: &mut String, e: &Expr<Metadata>, verbose: bool)
    requires
        renderable(e@, verbose),
    ensures
        final(out)@ == old(out)@ + latex(e@, verbose),
    decreases *e, 2nat,
{
    let ghost start = old(out)@;
    match e.raw() {
        RawExpr::SetComprehension { variable, domain, predicate } => {
            out.append("\\left\\{");
            write_variable(out, variable);
            out.append(" \\in ");
            write_type(out, domain, verbose);
            out.append(" : ");
            write_expr(out, predicate, verbose);
            out.append("\\right\\}");
        },
        RawExpr::Hole => {
            out.append("\\square");
        },
        RawExpr::Ellipsis => {
            out.append("\\ldots");
        },
        RawExpr::ImplicitDimension(dimension) => {
            out.append("@");
            write_decimal(out, dimension.nonce_id());
        },
        RawExpr::BoundNatural(index) => {
            out.append("\\#");
            write_decimal(out, index.get() as u64);
        },
        RawExpr::IdentityMatrix { dimension } => {
            if verbose {
                out.append("I_{@");
                write_decimal(out, dimension.nonce_id());
                out.append("}");
            } else {
                out.append("I");
            }
        },
        RawExpr::StandardBasis { index, dimension } => {
            out.append("e_{");
            write_expr(out, index, verbose);
            if verbose {
                out.append(",@");
                write_decimal(out, dimension.nonce_id());
            }
            out.append("}");
        },
        RawExpr::ZeroMatrix { rows, cols } => {
            if verbose {
                out.append("\\mathbb{0}_{@");
                write_decimal(out, rows.nonce_id());
                out.append(",@");
                write_decimal(out, cols.nonce_id());
                out.append("}");
            } else {
                out.append("\\mathbb{0}");
            }
        },
        RawExpr::Type(ty) => {
            write_type(out, ty, verbose);
        },
        RawExpr::Variable(v) => {
            write_variable(out, v);
        },
        RawExpr::NatLiteral(value) => {
            write_decimal(out, *value);
        },
        RawExpr::Matrix(matrix) => {
            proof {
                crate::view::lemma_views(matrix.elements@);
            }
            out.append("\\begin{bmatrix}");
            write_cells(out, matrix, verbose);
            out.append("\\end{bmatrix}");
        },
        RawExpr::Monop(op, x) => {
            out.append(monop_prefix_text(*op));
            let grouped = match op {
                Monop::Neg => rank_of(x) <= ADDITION,
                Monop::Inverse | Monop::Transpose => rank_of(x) < POWER,
                _ => false,
            };
            write_grouped(out, x, grouped, verbose);
            out.append(monop_suffix_text(*op));
        },
        RawExpr::Binop(_, _, _) => {
            write_binop(out, e, verbose);
        },
        RawExpr::Triop(_, a, b, c) => {
            write_expr(out, a, verbose);
            out.append("_{");
            write_expr(out, b, verbose);
            out.append(",");
            write_expr(out, c, verbose);
            out.append("}");
        },
        RawExpr::Finop(op, operands) => {
            out.append(finop_prefix_text(*op));
            write_terms(out, *op, operands, verbose);
            out.append(finop_suffix_text(*op));
        },
        RawExpr::CmpChain(chain) => {
            let grouped = rank_of(&chain.start) <= COMPARISON;
            write_grouped(out, &chain.start, grouped, verbose);
            write_comparison_links(out, &chain.assertions, verbose);
        },
        RawExpr::LogicChain(chain) => {
            let grouped = rank_of(&chain.start) <= LOGIC;
            write_grouped(out, &chain.start, grouped, verbose);
            write_logic_links(out, &chain.assertions, verbose);
        },
        RawExpr::Seqop(op, range, body) => {
            out.append(seqop_name_text(*op));
            out.append("_{");
            out.append(range.index_variable.name.as_str());
            out.append("=");
            write_expr(out, &range.from, verbose);
            out.append("}^{");
            write_expr(out, &range.to, verbose);
            out.append("}");
            let grouped = rank_of(body) <= ADDITION;
            write_grouped(out, body, grouped, verbose);
        },
    }
}

/// Appends the TeX text of a binary operation.
#[verifier::rlimit(100)]
#[verifier::spinoff_prover]
fn write_binop<Metadata>(out: &mut String, e: &Expr<Metadata>, verbose: bool)
    requires
        e@ is Binop,
        renderable(e@, verbose),
    ensures
        final(out)@ == old(out)@ + latex(e@, verbose),
    decreases *e, 1nat,
{
    let ghost start = old(out)@;
    match e.raw() {
        RawExpr::Binop(op, a, b) => {
            let membership = match op {
                Binop::ElementOf | Binop::InDomain => true,
                _ => false,
            };
            let power = match op {
                Binop::Power => true,
                _ => false,
            };
            let left_grouped = (power && rank_of(a) < POWER) || (membership && rank_of(a) <= COMPARISON);
            let right_grouped = membership && rank_of(b) <= COMPARISON;
            let ghost left = group(latex(a@, verbose), left_grouped);
            let ghost right = group(latex(b@, verbose), right_grouped);
            match op {
                Binop::Div => {
                    out.append("\\frac{");
                    write_grouped(out, a, left_grouped, verbose);
                    out.append("}{");
                    write_grouped(out, b, right_grouped, verbose);
                    out.append("}");
                },
                Binop::Power => {
                    write_grouped(out, a, left_grouped, verbose);
                    out.append("^{");
                    write_grouped(out, b, right_grouped, verbose);
                    out.append("}");
                },
                Binop::InnerProd => {
                    out.append("\\langle ");
                    write_grouped(out, a, left_grouped, verbose);
                    out.append(", ");
                    write_grouped(out, b, right_grouped, verbose);
                    out.append(" \\rangle");
                },
                Binop::Cast => {
                    out.append("\\operatorname{cast}(");
                    write_grouped(out, a, left_grouped, verbose);
                    out.append(", ");
                    write_grouped(out, b, right_grouped, verbose);
                    out.append(")");
                },
                Binop::ElementOf | Binop::InDomain => {
                    write_grouped(out, a, left_grouped, verbose);
                    out.append(" \\in ");
                    write_grouped(out, b, right_grouped, verbose);
                },
                Binop::SingleSubscript => {
                    write_grouped(out, a, left_grouped, verbose);
                    out.append("_{");
                    write_grouped(out, b, right_grouped, verbose);
                    out.append("}");
                },
            }
            proof {
                assert(out@ == start + binop_tex(*op, left, right));
            }
        },
        _ => {},
    }
}

/// Appends the TeX text of a type.
fn write_type<Metadata>(out: &mut String, ty: &TypeExpr<Metadata>, verbose: bool)
    requires
        renderable_type(type_view(*ty), verbose),
    ensures
        final(out)@ == old(out)@ + latex_type(type_view(*ty), verbose),
    decreases *ty, 0nat,
{
    match ty {
        TypeExpr::SetOf(element) => {
            let element: &TypeExpr<Metadata> = element;
            out.append("\\operatorname{Set}(");
            write_type(out, element, verbose);
            out.append(")");
        },
        TypeExpr::Bool => {
            out.append("\\mathbb{B}");
        },
        TypeExpr::Nat => {
            out.append("\\mathbb{N}");
        },
        TypeExpr::Int => {
            out.append("\\mathbb{Z}");
        },
        TypeExpr::Real => {
            out.append("\\mathbb{R}");
        },
        TypeExpr::Matrix(rows, cols) => {
            let column = match cols.raw() {
                RawExpr::NatLiteral(value) => *value == 1,
                _ => false,
            };
            out.append("\\mathbb{R}^{");
            write_expr(out, rows, verbose);
            if !column {
                out.append(" \\times ");
                write_expr(out, cols, verbose);
            }
            out.append("}");
        },
        TypeExpr::Sequence(element, length) => {
            out.append("\\operatorname{Seq}_{");
            write_expr(out, length, verbose);
            out.append("}(");
            write_expr(out, element, verbose);
            out.append(")");
        },
    }
}

/// Appends the cells of a matrix in row-major order.
fn write_cells<Metadata>(out: &mut String, matrix: &Matrix<Expr<Metadata>>, verbose: bool)
    requires
        matrix.elements.len() == matrix.rows * matrix.cols,
        (matrix.rows == 0) == (matrix.cols == 0),
        renderable_seq(views(matrix.elements@), verbose),
    ensures
        final(out)@ == old(out)@ + latex_cells(views(matrix.elements@), matrix.cols as int, verbose),
    decreases matrix.elements@, 0nat,
{
    let ghost start = old(out)@;
    let ghost all = views(matrix.elements@);
    proof {
        crate::view::lemma_views(matrix.elements@);
    }
    let cols = matrix.cols;
    let mut i: usize = 0;
    while i < matrix.elements.len()
        invariant
            i <= matrix.elements.len(),
            all == views(matrix.elements@),
            all.len() == matrix.elements.len(),
            forall|j: int| 0 <= j < matrix.elements.len() ==> #[trigger] all[j] == matrix.elements@[j]@,
            renderable_seq(all, verbose),
            matrix.elements.len() > 0 ==> cols > 0,
            cols == matrix.cols,
            out@ == start + latex_cells(all.take(i as int), cols as int, verbose),
        decreases matrix.elements.len() - i,
    {
        proof {
            assert(all.take(i + 1).drop_last() =~= all.take(i as int));
            assert(decreases_to!(matrix.elements@ => matrix.elements@[i as int]));
            lemma_renderable_member(all, verbose, i as int);
        }
        if i > 0 {
            if i % cols == 0 {
                out.append(" \\\\ ");
            } else {
                out.append(" & ");
            }
        }
        write_expr(out, &matrix.elements[i], verbose);
        i = i + 1;
    }
    proof {
        assert(all.take(matrix.elements.len() as int) =~= all);
    }
}

/// Appends the operands of a finite operator.
fn write_terms<Metadata>(out: &mut String, op: Finop, operands: &Vec<Expr<Metadata>>, verbose: bool)
    requires
        renderable_seq(views(operands@), verbose),
    ensures
        final(out)@ == old(out)@ + finop_terms(op, views(operands@), verbose),
    decreases operands@, 0nat,
{
    let ghost start = old(out)@;
    let ghost all = views(operands@);
    proof {
        crate::view::lemma_views(operands@);
    }
    let mut i: usize = 0;
    while i < operands.len()
        invariant
            i <= operands.len(),
            all == views(operands@),
            all.len() == operands.len(),
            forall|j: int| 0 <= j < operands.len() ==> #[trigger] all[j] == operands@[j]@,
            renderable_seq(all, verbose),
            out@ == start + finop_terms(op, all.take(i as int), verbose),
        decreases operands.len() - i,
    {
        proof {
            assert(all.take(i + 1).drop_last() =~= all.take(i as int));
            assert(decreases_to!(operands@ => operands@[i as int]));
            lemma_renderable_member(all, verbose, i as int);
        }
        write_term(out, op, &operands[i], i, verbose);
        i = i + 1;
    }
    proof {
        assert(all.take(operands.len() as int) =~= all);
    }
}

/// Appends one operand of a finite operator with the separator before it.
fn write_term<Metadata>(out: &mut String, op: Finop, x: &Expr<Metadata>, index: usize, verbose: bool)
    requires
        renderable(x@, verbose),
    ensures
        final(out)@ == old(out)@ + finop_term(op, x@, index as int, verbose),
    decreases *x, 4nat,
{
    let plus = match op {
        Finop::Plus => true,
        _ => false,
    };
    if plus && index > 0 {
        if let RawExpr::Monop(Monop::Neg, inner) = x.raw() {
            out.append(" - ");
            let grouped = rank_of(inner) <= ADDITION;
            write_grouped(out, inner, grouped, verbose);
            return;
        }
    }
    if index > 0 {
        out.append(finop_separator_text(op));
    }
    let grouped = match op {
        Finop::Plus => rank_of(x) < ADDITION,
        Finop::Times => rank_of(x) < MULTIPLICATION || match x.raw() {
            RawExpr::Monop(Monop::Neg, _) => true,
            _ => false,
        },
        Finop::And => rank_of(x) < AND,
        Finop::Or => rank_of(x) < OR,
        Finop::SeqLiteral => rank_of(x) <= SEQUENCE,
        Finop::Forall | Finop::Exists => rank_of(x) == FORALL,
        _ => false,
    };
    write_grouped(out, x, grouped, verbose);
}

/// Appends the links of a comparison chain.
fn write_comparison_links<Metadata>(out: &mut String, links: &Vec<(Cmp, Expr<Metadata>)>, verbose: bool)
    requires
        renderable_links(comparison_views(links@), verbose),
    ensures
        final(out)@ == old(out)@ + comparison_links_tex(comparison_views(links@), verbose),
    decreases links@, 0nat,
{
    let ghost start = old(out)@;
    let ghost all = comparison_views(links@);
    proof {
        crate::view::lemma_comparison_views(links@);
    }
    let mut i: usize = 0;
    while i < links.len()
        invariant
            i <= links.len(),
            all == comparison_views(links@),
            all.len() == links.len(),
            forall|j: int| 0 <= j < links.len() ==> #[trigger] all[j] == (links@[j].0, links@[j].1@),
            renderable_links(all, verbose),
            out@ == start + comparison_links_tex(all.take(i as int), verbose),
        decreases links.len() - i,
    {
        proof {
            assert(all.take(i + 1).drop_last() =~= all.take(i as int));
            assert(decreases_to!(links@ => links@[i as int]));
            lemma_renderable_link_member(all, verbose, i as int);
        }
        let (op, x) = &links[i];
        out.append(" ");
        out.append(comparison_symbol_text(*op));
        out.append(" ");
        let grouped = rank_of(x) <= COMPARISON;
        write_grouped(out, x, grouped, verbose);
        i = i + 1;
    }
    proof {
        assert(all.take(links.len() as int) =~= all);
    }
}

/// Appends the links of a logic chain.
fn write_logic_links<Metadata>(out: &mut String, links: &Vec<(Logic, Expr<Metadata>)>, verbose: bool)
    requires
        renderable_links(logic_views(links@), verbose),
    ensures
        final(out)@ == old(out)@ + logic_links_tex(logic_views(links@), verbose),
    decreases links@, 0nat,
{
    let ghost start = old(out)@;
    let ghost all = logic_views(links@);
    proof {
        crate::view::lemma_logic_views(links@);
    }
    let mut i: usize = 0;
    while i < links.len()
        invariant
            i <= links.len(),
            all == logic_views(links@),
            all.len() == links.len(),
            forall|j: int| 0 <= j < links.len() ==> #[trigger] all[j] == (links@[j].0, links@[j].1@),
            renderable_links(all, verbose),
            out@ == start + logic_links_tex(all.take(i as int), verbose),
        decreases links.len() - i,
    {
        proof {
            assert(all.take(i + 1).drop_last() =~= all.take(i as int));
            assert(decreases_to!(links@ => links@[i as int]));
            lemma_renderable_link_member(all, verbose, i as int);
        }
        let (op, x) = &links[i];
        out.append(" ");
        out.append(logic_symbol_text(*op));
        out.append(" ");
        let grouped = rank_of(x) <= LOGIC;
        write_grouped(out, x, grouped, verbose);
        i = i + 1;
    }
    proof {
        assert(all.take(links.len() as int) =~= all);
    }
}

/// Comparison symbols: equality renders as `=`, disequality as `\ne`, and
/// the orderings as `<`, `>`, `\le` and `\ge`; no two comparisons share a
/// symbol, and a comparison between two variables renders as the two names
/// around its symbol.
pub proof fn law_comparison_symbols(a: VariableView, b: VariableView, op: Cmp, other: Cmp, verbose: bool)
    ensures
        comparison_symbol(Cmp::Eq) == "="@,
        comparison_symbol(Cmp::Ne) == "\\ne"@,
        comparison_symbol(Cmp::Lt) == "<"@,
        comparison_symbol(Cmp::Gt) == ">"@,
        comparison_symbol(Cmp::Le) == "\\le"@,
        comparison_symbol(Cmp::Ge) == "\\ge"@,
        comparison_symbol(op) == comparison_symbol(other) ==> op == other,
        latex(ExprView::CmpChain(Box::new(ExprView::Variable(a)), seq![(op, ExprView::Variable(b))]), verbose)
            == variable_tex(a) + " "@ + comparison_symbol(op) + " "@ + variable_tex(b),
{
    reveal_strlit("=");
    reveal_strlit("\\ne");
    reveal_strlit("<");
    reveal_strlit(">");
    reveal_strlit("\\le");
    reveal_strlit("\\ge");
    let links = seq![(op, ExprView::Variable(b))];
    assert(links.drop_last() =~= Seq::<(Cmp, ExprView)>::empty());
    assert(comparison_links_tex(links.drop_last(), verbose) == Seq::<char>::empty());
    assert(latex(ExprView::Variable(b), verbose) == variable_tex(b));
    assert(latex(ExprView::Variable(a), verbose) == variable_tex(a));
    assert(rank(ExprView::Variable(a)) == ATOM);
    assert(rank(ExprView::Variable(b)) == ATOM);
    assert(comparison_links_tex(links, verbose) == Seq::<char>::empty() + " "@ + comparison_symbol(op) + " "@
        + variable_tex(b));
    assert(Seq::<char>::empty() + " "@ + comparison_symbol(op) + " "@ + variable_tex(b) =~= " "@ + comparison_symbol(
        op,
    ) + " "@ + variable_tex(b));
    assert(variable_tex(a) + (" "@ + comparison_symbol(op) + " "@ + variable_tex(b)) =~= variable_tex(a) + " "@
        + comparison_symbol(op) + " "@ + variable_tex(b));
    if comparison_symbol(op) == comparison_symbol(other) {
        let x = comparison_symbol(op);
        match op {
            Cmp::Eq => {
                assert(x.len() == 1 && x[0] == '=');
            },
            Cmp::Ne => {
                assert(x.len() == 3 && x[1] == 'n');
            },
            Cmp::Lt => {
                assert(x.len() == 1 && x[0] == '<');
            },
            Cmp::Gt => {
                assert(x.len() == 1 && x[0] == '>');
            },
            Cmp::Le => {
                assert(x.len() == 3 && x[1] == 'l');
            },
            Cmp::Ge => {
                assert(x.len() == 3 && x[1] == 'g');
            },
        }
        match other {
            Cmp::Eq => {
                assert(x.len() == 1 && x[0] == '=');
            },
            Cmp::Ne => {
                assert(x.len() == 3 && x[1] == 'n');
            },
            Cmp::Lt => {
                assert(x.len() == 1 && x[0] == '<');
            },
            Cmp::Gt => {
                assert(x.len() == 1 && x[0] == '>');
            },
            Cmp::Le => {
                assert(x.len() == 3 && x[1] == 'l');
            },
            Cmp::Ge => {
                assert(x.len() == 3 && x[1] == 'g');
            },
        }
    }
}

/// Logic symbols: an implication link renders as `\implies` and an
/// equivalence link as `\iff`, so the two never render alike.
pub proof fn law_logic_symbols(op: Logic, other: Logic)
    ensures
        logic_symbol(Logic::Imp) == "\\implies"@,
        logic_symbol(Logic::Iff) == "\\iff"@,
        logic_symbol(op) == logic_symbol(other) ==> op == other,
{
    reveal_strlit("\\implies");
    reveal_strlit("\\iff");
    if logic_symbol(op) == logic_symbol(other) && op != other {
        assert(logic_symbol(Logic::Imp).len() != logic_symbol(Logic::Iff).len());
    }
}

/// Unary operators around a variable `v`: `\operatorname{tr}(v)`,
/// `\det(v)`, `\operatorname{diag}(v)`, `\operatorname{Nul}(v)`,
/// `\operatorname{Range}(v)`, `-v`, `v^{-1}`, `v^\top`, and the norms
/// `\left\lVert v \right\rVert_{1}`, `_{2}`, `_{\infty}` and `_{F}`.
pub proof fn law_unary_operator_texts(v: VariableView, verbose: bool)
    ensures
        latex(ExprView::Monop(Monop::Trace, Box::new(ExprView::Variable(v))), verbose) == "\\operatorname{tr}("@
            + variable_tex(v) + ")"@,
        latex(ExprView::Monop(Monop::Det, Box::new(ExprView::Variable(v))), verbose) == "\\det("@ + variable_tex(v)
            + ")"@,
        latex(ExprView::Monop(Monop::Diag, Box::new(ExprView::Variable(v))), verbose) == "\\operatorname{diag}("@
            + variable_tex(v) + ")"@,
        latex(ExprView::Monop(Monop::Nul, Box::new(ExprView::Variable(v))), verbose) == "\\operatorname{Nul}("@
            + variable_tex(v) + ")"@,
        latex(ExprView::Monop(Monop::Range, Box::new(ExprView::Variable(v))), verbose) == "\\operatorname{Range}("@
            + variable_tex(v) + ")"@,
        latex(ExprView::Monop(Monop::Neg, Box::new(ExprView::Variable(v))), verbose) == "-"@ + variable_tex(v) + ""@,
        latex(ExprView::Monop(Monop::Inverse, Box::new(ExprView::Variable(v))), verbose) == ""@ + variable_tex(v)
            + "^{-1}"@,
        latex(ExprView::Monop(Monop::Transpose, Box::new(ExprView::Variable(v))), verbose) == ""@ + variable_tex(v)
            + "^\\top"@,
        latex(ExprView::Monop(Monop::Norm1, Box::new(ExprView::Variable(v))), verbose) == "\\left\\lVert "@
            + variable_tex(v) + " \\right\\rVert_{1}"@,
        latex(ExprView::Monop(Monop::Norm2, Box::new(ExprView::Variable(v))), verbose) == "\\left\\lVert "@
            + variable_tex(v) + " \\right\\rVert_{2}"@,
        latex(ExprView::Monop(Monop::NormInfty, Box::new(ExprView::Variable(v))), verbose) == "\\left\\lVert "@
            + variable_tex(v) + " \\right\\rVert_{\\infty}"@,
        latex(ExprView::Monop(Monop::NormFrob, Box::new(ExprView::Variable(v))), verbose) == "\\left\\lVert "@
            + variable_tex(v) + " \\right\\rVert_{F}"@,
{
    assert(rank(ExprView::Variable(v)) == ATOM);
    assert(latex(ExprView::Variable(v), verbose) == variable_tex(v));
}

/// Binary operators between variables `a` and `b`: `\frac{a}{b}`, `a^{b}`,
/// `\langle a, b \rangle`, `\operatorname{cast}(a, b)`, `a \in b` for both
/// memberships, and `a_{b}`.
pub proof fn law_binary_operator_texts(a: VariableView, b: VariableView, verbose: bool)
    ensures
        latex(ExprView::Binop(Binop::Div, Box::new(ExprView::Variable(a)), Box::new(ExprView::Variable(b))), verbose)
            == "\\frac{"@ + variable_tex(a) + "}{"@ + variable_tex(b) + "}"@,
        latex(ExprView::Binop(Binop::Power, Box::new(ExprView::Variable(a)), Box::new(ExprView::Variable(b))), verbose)
            == variable_tex(a) + "^{"@ + variable_tex(b) + "}"@,
        latex(
            ExprView::Binop(Binop::InnerProd, Box::new(ExprView::Variable(a)), Box::new(ExprView::Variable(b))),
            verbose,
        ) == "\\langle "@ + variable_tex(a) + ", "@ + variable_tex(b) + " \\rangle"@,
        latex(ExprView::Binop(Binop::Cast, Box::new(ExprView::Variable(a)), Box::new(ExprView::Variable(b))), verbose)
            == "\\operatorname{cast}("@ + variable_tex(a) + ", "@ + variable_tex(b) + ")"@,
        latex(
            ExprView::Binop(Binop::ElementOf, Box::new(ExprView::Variable(a)), Box::new(ExprView::Variable(b))),
            verbose,
        ) == variable_tex(a) + " \\in "@ + variable_tex(b),
        latex(
            ExprView::Binop(Binop::InDomain, Box::new(ExprView::Variable(a)), Box::new(ExprView::Variable(b))),
            verbose,
        ) == variable_tex(a) + " \\in "@ + variable_tex(b),
        latex(
            ExprView::Binop(Binop::SingleSubscript, Box::new(ExprView::Variable(a)), Box::new(ExprView::Variable(b))),
            verbose,
        ) == variable_tex(a) + "_{"@ + variable_tex(b) + "}"@,
{
    assert(rank(ExprView::Variable(a)) == ATOM);
    assert(rank(ExprView::Variable(b)) == ATOM);
    assert(latex(ExprView::Variable(a), verbose) == variable_tex(a));
    assert(latex(ExprView::Variable(b), verbose) == variable_tex(b));
}

/// Finite operators over two variables `a` and `b`: `a + b`, `a b`,
/// `a \land b`, `a \lor b`, `\max(a, b)` and `\min(a, b)`.
pub proof fn law_finite_operator_texts(a: VariableView, b: VariableView, verbose: bool)
    ensures
        latex(ExprView::Finop(Finop::Plus, seq![ExprView::Variable(a), ExprView::Variable(b)]), verbose) == variable_tex(a)
            + " + "@ + variable_tex(b),
        latex(ExprView::Finop(Finop::Times, seq![ExprView::Variable(a), ExprView::Variable(b)]), verbose) == variable_tex(a)
            + " "@ + variable_tex(b),
        latex(ExprView::Finop(Finop::And, seq![ExprView::Variable(a), ExprView::Variable(b)]), verbose) == variable_tex(a)
            + " \\land "@ + variable_tex(b),
        latex(ExprView::Finop(Finop::Or, seq![ExprView::Variable(a), ExprView::Variable(b)]), verbose) == variable_tex(a)
            + " \\lor "@ + variable_tex(b),
        latex(ExprView::Finop(Finop::Max, seq![ExprView::Variable(a), ExprView::Variable(b)]), verbose) == "\\max("@
            + variable_tex(a) + ", "@ + variable_tex(b) + ")"@,
        latex(ExprView::Finop(Finop::Min, seq![ExprView::Variable(a), ExprView::Variable(b)]), verbose) == "\\min("@
            + variable_tex(a) + ", "@ + variable_tex(b) + ")"@,
{
    reveal_strlit("");
    let xa = ExprView::Variable(a);
    let xb = ExprView::Variable(b);
    let s = seq![xa, xb];
    assert(rank(xa) == ATOM && rank(xb) == ATOM);
    assert(latex(xa, verbose) == variable_tex(a));
    assert(latex(xb, verbose) == variable_tex(b));
    assert(s.drop_last() =~= seq![xa]);
    assert(seq![xa].drop_last() =~= Seq::<ExprView>::empty());
    let ops = seq![Finop::Plus, Finop::Times, Finop::And, Finop::Or, Finop::Max, Finop::Min];
    assert forall|k: int| 0 <= k < 6 implies #[trigger] finop_terms(ops[k], s, verbose) == variable_tex(a)
        + finop_separator(ops[k]) + variable_tex(b) by {
        let op = ops[k];
        assert(finop_terms(op, seq![xa].drop_last(), verbose) == Seq::<char>::empty());
        assert(finop_term(op, xa, 0, verbose) == variable_tex(a));
        assert(finop_terms(op, seq![xa], verbose) == Seq::<char>::empty() + variable_tex(a));
        assert(Seq::<char>::empty() + variable_tex(a) =~= variable_tex(a));
        assert(finop_term(op, xb, 1, verbose) == finop_separator(op) + variable_tex(b));
    }
    assert(finop_terms(ops[0], s, verbose) == variable_tex(a) + finop_separator(ops[0]) + variable_tex(b));
    assert(finop_terms(ops[1], s, verbose) == variable_tex(a) + finop_separator(ops[1]) + variable_tex(b));
    assert(finop_terms(ops[2], s, verbose) == variable_tex(a) + finop_separator(ops[2]) + variable_tex(b));
    assert(finop_terms(ops[3], s, verbose) == variable_tex(a) + finop_separator(ops[3]) + variable_tex(b));
    assert(finop_terms(ops[4], s, verbose) == variable_tex(a) + finop_separator(ops[4]) + variable_tex(b));
    assert(finop_terms(ops[5], s, verbose) == variable_tex(a) + finop_separator(ops[5]) + variable_tex(b));
    assert(""@ + (variable_tex(a) + " + "@ + variable_tex(b)) + ""@ =~= variable_tex(a) + " + "@ + variable_tex(b));
    assert(""@ + (variable_tex(a) + " "@ + variable_tex(b)) + ""@ =~= variable_tex(a) + " "@ + variable_tex(b));
    assert(""@ + (variable_tex(a) + " \\land "@ + variable_tex(b)) + ""@ =~= variable_tex(a) + " \\land "@ + variable_tex(b));
    assert(""@ + (variable_tex(a) + " \\lor "@ + variable_tex(b)) + ""@ =~= variable_tex(a) + " \\lor "@ + variable_tex(b));
    assert("\\max("@ + (variable_tex(a) + ", "@ + variable_tex(b)) + ")"@ =~= "\\max("@ + variable_tex(a) + ", "@
        + variable_tex(b) + ")"@);
    assert("\\min("@ + (variable_tex(a) + ", "@ + variable_tex(b)) + ")"@ =~= "\\min("@ + variable_tex(a) + ", "@
        + variable_tex(b) + ")"@);
}

} // verus!
