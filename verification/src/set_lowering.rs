//! Exact elimination of direct membership in typed set comprehensions.
use vstd::prelude::*;

use crate::context::VisitContext;
use crate::formula::{free_substituted, substitute_free_variable};
use crate::type_resolver::{annotation, MaybeTyped, TypeError, TypedMetadata};
use crate::view::{type_view, views, ExprView, TypeView, VariableView};
use crate::{Binop, Expr, Finop, RawExpr, TypeExpr, Variable};

verus! {

/// The parts of a node `s \in \{x \in D : P\}`: the subject `s`, the binder
/// `x`, the domain `D` and the predicate `P`.
pub open spec fn comprehension_membership(node: Expr<TypedMetadata>) -> Option<
    (Expr<TypedMetadata>, Variable, TypeExpr<TypedMetadata>, Expr<TypedMetadata>),
> {
    match node.node().raw {
        RawExpr::Binop(Binop::ElementOf, subject, set) => match set.node().raw {
            RawExpr::SetComprehension { variable, domain, predicate } => Some((subject, variable, domain, predicate)),
            _ => None,
        },
        _ => None,
    }
}

/// `s \in D \land P[x := s]`: the membership of `s` in `\{x \in D : P\}`.
pub open spec fn membership_lowered(subject: ExprView, x: VariableView, domain: TypeView, predicate: ExprView) -> ExprView {
    ExprView::Finop(
        Finop::And,
        seq![
            ExprView::Binop(Binop::InDomain, Box::new(subject), Box::new(ExprView::Type(domain))),
            free_substituted(predicate, x, subject),
        ],
    )
}

/// The message of a comprehension whose predicate is not known to be Boolean.
pub open spec fn predicate_message() -> Seq<char> {
    "set comprehension predicate must be Boolean"@
}

/// Replaces membership in a set comprehension by the domain check and the
/// predicate applied to the subject.
pub struct SetMembershipLowering {
    pub rewrites: usize,
    pub error: Option<TypeError>,
}

impl Default for SetMembershipLowering {
    fn default() -> (lowering: Self)
        ensures
            lowering.rewrites == 0,
            lowering.error is None,
    {
        SetMembershipLowering { rewrites: 0, error: None }
    }
}

impl SetMembershipLowering {
    /// The number of rewrites, or the failure met.
    pub fn finish(self) -> (result: Result<usize, TypeError>)
        ensures
            match result {
                Ok(n) => self.error is None && n == self.rewrites,
                Err(e) => self.error == Some(e),
            },
    {
        match self.error {
            None => Ok(self.rewrites),
            Some(error) => Err(error),
        }
    }

    /// Rewrites the node `s \in \{x \in D : P\}` into `s \in D \land
    /// P[x := s]`, every node of it untyped so that its types are inferred
    /// afresh; a predicate not known to be Boolean fails. Any other node is
    /// left as it is, and nothing happens after a failure.
    pub fn lower_node(&mut self, context: &VisitContext, node: &mut Expr<TypedMetadata>)
        requires
            old(self).rewrites < usize::MAX,
        ensures
            old(self).error is Some ==> *final(node) == *old(node) && *final(self) == *old(self),
            old(self).error is None ==> match comprehension_membership(*old(node)) {
                None => *final(node) == *old(node) && *final(self) == *old(self),
                Some((subject, x, domain, predicate)) => if annotation(predicate) == Some(TypeView::Bool) {
                    &&& final(node)@ == membership_lowered(subject@, x.view_variable(), type_view(domain), predicate@)
                    &&& annotation(*final(node)) is None
                    &&& final(self).error is None
                    &&& final(self).rewrites == old(self).rewrites + 1
                } else {
                    &&& *final(node) == *old(node)
                    &&& final(self).error matches Some(TypeError::Invalid(m)) && m@ == predicate_message()
                    &&& final(self).rewrites == old(self).rewrites
                },
            },
    {
        if self.error.is_some() {
            return;
        }
        let (subject, set) = match node.raw() {
            RawExpr::Binop(Binop::ElementOf, subject, set) => (subject.share(), set.share()),
            _ => return,
        };
        let (variable, domain, predicate) = match set.raw() {
            RawExpr::SetComprehension { variable, domain, predicate } => (variable, domain, predicate),
            _ => return,
        };
        let boolean = match predicate.meta().get_type() {
            Ok(TypeExpr::Bool) => true,
            _ => false,
        };
        if !boolean {
            self.error = Some(TypeError::Invalid("set comprehension predicate must be Boolean"));
            return;
        }
        let plain_subject: Expr<()> = subject.with_default_metadata();
        let plain_predicate: Expr<()> = predicate.with_default_metadata();
        let substituted = substitute_free_variable(&plain_predicate, variable, &plain_subject);
        let domain_type: Expr<()> = Expr::new(RawExpr::Type(domain.with_default_metadata()));
        let domain_check: Expr<()> = Expr::new(RawExpr::Binop(Binop::InDomain, plain_subject, domain_type));
        let parts: Vec<Expr<TypedMetadata>> = vec![
            domain_check.with_default_metadata(),
            substituted.with_default_metadata(),
        ];
        proof {
            crate::type_resolver::lemma_raw_view(domain_type);
            crate::type_resolver::lemma_raw_view(domain_check);
            crate::view::lemma_views(parts@);
            assert(views(parts@) =~= seq![domain_check@, substituted@]);
        }
        let replacement: Expr<TypedMetadata> = Expr::new(RawExpr::Finop(Finop::And, parts));
        proof {
            crate::type_resolver::lemma_raw_view(replacement);
        }
        *node = replacement;
        self.rewrites = self.rewrites + 1;
    }
}

/// Membership lowering puts the subject where the binder was: `s \in \{x
/// \in D : x\}` becomes the domain check of `s` and `s` itself, a predicate
/// about another variable `y` keeps `y`, and the domain check is always of
/// the subject against the comprehension's domain.
pub proof fn law_membership_substitutes_the_subject(subject: ExprView, x: VariableView, y: VariableView, domain: TypeView, predicate: ExprView)
    requires
        x != y,
    ensures
        membership_lowered(subject, x, domain, ExprView::Variable(x)) == ExprView::Finop(
            Finop::And,
            seq![ExprView::Binop(Binop::InDomain, Box::new(subject), Box::new(ExprView::Type(domain))), subject],
        ),
        membership_lowered(subject, x, domain, ExprView::Variable(y)) == ExprView::Finop(
            Finop::And,
            seq![
                ExprView::Binop(Binop::InDomain, Box::new(subject), Box::new(ExprView::Type(domain))),
                ExprView::Variable(y),
            ],
        ),
        membership_lowered(subject, x, domain, predicate) matches ExprView::Finop(op, parts) && op == Finop::And
            && parts.len() == 2 && parts[0] == ExprView::Binop(
            Binop::InDomain,
            Box::new(subject),
            Box::new(ExprView::Type(domain)),
        ),
{
}

} // verus!
