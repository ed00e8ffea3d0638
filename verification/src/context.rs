//! Where a subexpression stands in the formula around it, and what a
//! rewrite that introduces a new value records about it.
use vstd::prelude::*;

use crate::{Expr, Range, TypeExpr, Variable};

verus! {

/// The position of a subexpression: whether it is read with positive
/// logical polarity, and the ranges of the sequence operations around it,
/// outermost first.
#[derive(Clone, Debug)]
pub struct VisitContext {
    pub logical_polarity: bool,
    pub active_ranges: Vec<Range<()>>,
}

impl VisitContext {
    /// The position of a whole formula.
    pub fn positive() -> (context: Self)
        ensures
            context.logical_polarity,
            context.active_ranges@.len() == 0,
    {
        VisitContext { logical_polarity: true, active_ranges: Vec::new() }
    }

    /// The position of a formula read under a negation.
    pub fn negative() -> (context: Self)
        ensures
            !context.logical_polarity,
            context.active_ranges@.len() == 0,
    {
        VisitContext { logical_polarity: false, active_ranges: Vec::new() }
    }
}

/// How the existence of an introduced value is known.
#[derive(Debug)]
pub enum Existence<Metadata> {
    /// The value always exists.
    Guaranteed,
    /// The value's existence is decided by checking these assertions.
    Checkable(Vec<Expr<Metadata>>),
    /// The value is assumed to exist.
    Assumed,
}

/// A value introduced by a rewrite, with the assertions that define it.
#[derive(Debug)]
pub struct SideCondition<Metadata> {
    pub introduced_variable: Variable,
    pub display_name: String,
    pub introduced_type: TypeExpr<()>,
    pub active_ranges: Vec<Range<()>>,
    pub defining_assertions: Vec<Expr<Metadata>>,
    pub existence: Existence<Metadata>,
}

} // verus!
