//! Assertions: boolean expressions over the expectations of a layer.

use crate::expr::Expr;
use crate::layer::Layer;
use crate::paint::paint;
use crate::paint::quote;
use crate::paint::Colour;
use crate::registry::Registry;
use vstd::prelude::*;
use vstd::string::StringExecFns;

verus! {

/// An assertion.
///
/// It names its expectations by their index in the layer that declared
/// them, and is read, reset and repeated against that layer.
#[derive(Debug)]
pub struct Assertion(AssertionWrapper);

/// The shape of an assertion, kept out of sight so that an assertion can
/// only name expectations that a layer handed out.
#[derive(Debug)]
enum AssertionWrapper {
    And { lhs: Box<Assertion>, rhs: Box<Assertion> },
    Or { lhs: Box<Assertion>, rhs: Box<Assertion> },
    One { id: usize },
    Not { assertion: Box<Assertion> },
}

impl View for Assertion {
    type V = Expr;

    closed spec fn view(&self) -> Expr {
        self.expr()
    }
}

impl Assertion {
    /// The expression that the assertion stands for.
    spec fn expr(&self) -> Expr
        decreases self,
    {
        match self.0 {
            AssertionWrapper::And { lhs, rhs } => Expr::And(Box::new(lhs.expr()), Box::new(rhs.expr())),
            AssertionWrapper::Or { lhs, rhs } => Expr::Or(Box::new(lhs.expr()), Box::new(rhs.expr())),
            AssertionWrapper::One { id } => Expr::Leaf(id),
            AssertionWrapper::Not { assertion } => Expr::Not(Box::new(assertion.expr())),
        }
    }

    /// The assertion that is expectation `id` alone.
    pub(crate) fn one(id: usize) -> (assertion: Assertion)
        ensures
            assertion@ == Expr::Leaf(id),
    {
        Assertion(AssertionWrapper::One { id })
    }

    /// The expectations of the assertion, from left to right, each as
    /// often as it occurs.
    pub fn leaves(&self) -> (ids: Vec<usize>)
        ensures
            ids@ == self@.leaves(),
    {
        let mut ids: Vec<usize> = Vec::new();
        self.collect(&mut ids);
        ids
    }

    /// Appends the expectations of the assertion to `ids`.
    fn collect(&self, ids: &mut Vec<usize>)
        ensures
            final(ids)@ == old(ids)@ + self@.leaves(),
        decreases self,
    {
        match &self.0 {
            AssertionWrapper::One { id } => {
                ids.push(*id);
                proof {
                    assert(ids@ =~= old(ids)@ + self@.leaves());
                }
            },
            AssertionWrapper::Not { assertion } => assertion.collect(ids),
            AssertionWrapper::And { lhs, rhs } => {
                lhs.collect(ids);
                rhs.collect(ids);
                proof {
                    assert(ids@ =~= old(ids)@ + self@.leaves());
                }
            },
            AssertionWrapper::Or { lhs, rhs } => {
                lhs.collect(ids);
                rhs.collect(ids);
                proof {
                    assert(ids@ =~= old(ids)@ + self@.leaves());
                }
            },
        }
    }

    /// Whether every expectation of the assertion is one of `layer`: what
    /// the other methods ask of the layer they are handed.
    pub fn is_within(&self, layer: &Layer) -> (valid: bool)
        ensures
            valid == self@.within(layer@.leaves.len()),
        decreases self,
    {
        match &self.0 {
            AssertionWrapper::One { id } => *id < layer.len(),
            AssertionWrapper::Not { assertion } => assertion.is_within(layer),
            AssertionWrapper::And { lhs, rhs } => {
                let left = lhs.is_within(layer);
                let right = rhs.is_within(layer);
                left && right
            },
            AssertionWrapper::Or { lhs, rhs } => {
                let left = lhs.is_within(layer);
                let right = rhs.is_within(layer);
                left && right
            },
        }
    }

    /// The same assertion over the same expectations.
    fn alias(&self) -> (same: Assertion)
        ensures
            same@ == self@,
        decreases self,
    {
        match &self.0 {
            AssertionWrapper::One { id } => Assertion(AssertionWrapper::One { id: *id }),
            AssertionWrapper::Not { assertion } => Assertion(
                AssertionWrapper::Not { assertion: Box::new(assertion.alias()) },
            ),
            AssertionWrapper::And { lhs, rhs } => Assertion(
                AssertionWrapper::And { lhs: Box::new(lhs.alias()), rhs: Box::new(rhs.alias()) },
            ),
            AssertionWrapper::Or { lhs, rhs } => Assertion(
                AssertionWrapper::Or { lhs: Box::new(lhs.alias()), rhs: Box::new(rhs.alias()) },
            ),
        }
    }

    /// A copy of the assertion.
    ///
    /// The copy of a single expectation does not share it: a new expectation
    /// with the same rule is declared, unsatisfied, and the copy stands for
    /// that one. The copy of a larger assertion shares its expectations
    /// with the assertion it was made from, as `not`, `and` and `or` share
    /// those of their operands.
    pub fn clone(&self, layer: &mut Layer) -> (copy: Assertion)
        requires
            old(layer).wf(),
            self@.within(old(layer)@.leaves.len()),
        ensures
            (copy@, final(layer)@) == self@.copied(old(layer)@),
            final(layer).wf(),
            copy@.within(final(layer)@.leaves.len()),
    {
        match &self.0 {
            AssertionWrapper::One { id } => {
                let rule = layer.rule(*id).clone();
                layer.declare(rule)
            },
            _ => self.alias(),
        }
    }

    /// Create a new assertion with the same condition.
    ///
    /// The new assertion has the shape of this one, over expectations of its
    /// own: for each leaf, from left to right, a new expectation with the
    /// leaf's rule is declared, unsatisfied.
    pub fn repeat(&self, layer: &mut Layer) -> (copy: Assertion)
        requires
            old(layer).wf(),
            self@.within(old(layer)@.leaves.len()),
        ensures
            final(layer)@ == old(layer)@.declare_all(self@.rules(old(layer)@)),
            copy@ == self@.renumbered(old(layer)@.leaves.len()),
            final(layer).wf(),
            final(layer)@.leaves.len() == old(layer)@.leaves.len() + self@.leaves().len(),
            copy@.within(final(layer)@.leaves.len()),
        decreases self,
    {
        match &self.0 {
            AssertionWrapper::One { id } => {
                let rule = layer.rule(*id).clone();
                proof {
                    old(layer)@.lemma_declare_one(rule@);
                }
                layer.declare(rule)
            },
            AssertionWrapper::Not { assertion } => Assertion(
                AssertionWrapper::Not { assertion: Box::new(assertion.repeat(layer)) },
            ),
            AssertionWrapper::And { lhs, rhs } => {
                let first = lhs.repeat(layer);
                proof {
                    lemma_repeat_second(lhs@, rhs@, old(layer)@, layer@);
                }
                let second = rhs.repeat(layer);
                proof {
                    lemma_repeat_both(lhs@, rhs@, old(layer)@, layer@);
                }
                Assertion(AssertionWrapper::And { lhs: Box::new(first), rhs: Box::new(second) })
            },
            AssertionWrapper::Or { lhs, rhs } => {
                let first = lhs.repeat(layer);
                proof {
                    lemma_repeat_second(lhs@, rhs@, old(layer)@, layer@);
                }
                let second = rhs.repeat(layer);
                proof {
                    lemma_repeat_both(lhs@, rhs@, old(layer)@, layer@);
                }
                Assertion(AssertionWrapper::Or { lhs: Box::new(first), rhs: Box::new(second) })
            },
        }
    }

    /// Resets the assertion: each of its expectations, from left to right,
    /// is made unsatisfied, and one that was satisfied waits for a message
    /// again. Other assertions over the same expectations see the change.
    pub fn reset(&self, layer: &mut Layer)
        requires
            old(layer).wf(),
            self@.within(old(layer)@.leaves.len()),
        ensures
            final(layer)@ == old(layer)@.reset_all(self@.leaves()),
            final(layer).wf(),
            final(layer)@.pass_all == old(layer)@.pass_all,
            old(layer)@.same_rules(final(layer)@),
            forall|id: int|
                0 <= id < old(layer)@.leaves.len() ==> (#[trigger] final(layer)@.leaves[id]).latch == (old(
                    layer,
                )@.leaves[id].latch && !self@.mentions(id as usize)),
        decreases self,
    {
        match &self.0 {
            AssertionWrapper::One { id } => {
                layer.reset_one(*id);
                proof {
                    let ids = seq![*id];
                    assert(ids.drop_last() =~= Seq::<usize>::empty());
                    assert(old(layer)@.reset_all(ids.drop_last()) == old(layer)@);
                    old(layer)@.lemma_reset_one(*id);
                }
            },
            AssertionWrapper::Not { assertion } => assertion.reset(layer),
            AssertionWrapper::And { lhs, rhs } => {
                lhs.reset(layer);
                rhs.reset(layer);
                proof {
                    old(layer)@.lemma_reset_all_split(lhs@.leaves(), rhs@.leaves());
                }
            },
            AssertionWrapper::Or { lhs, rhs } => {
                lhs.reset(layer);
                rhs.reset(layer);
                proof {
                    old(layer)@.lemma_reset_all_split(lhs@.leaves(), rhs@.leaves());
                }
            },
        }
    }

    /// The current value of the assertion: each expectation reads as its
    /// latch, or as satisfied while the layer is disabled.
    pub fn eval(&self, layer: &Layer) -> (value: bool)
        requires
            self@.within(layer@.leaves.len()),
        ensures
            value == self@.eval(layer@),
        decreases self,
    {
        match &self.0 {
            AssertionWrapper::One { id } => layer.satisfied(*id),
            AssertionWrapper::And { lhs, rhs } => {
                let left = lhs.eval(layer);
                let right = rhs.eval(layer);
                left && right
            },
            AssertionWrapper::Or { lhs, rhs } => {
                let left = lhs.eval(layer);
                let right = rhs.eval(layer);
                left || right
            },
            AssertionWrapper::Not { assertion } => !assertion.eval(layer),
        }
    }

    /// The report of the assertion as it reads now, in colours.
    pub fn ansi(&self, layer: &Layer) -> (report: String)
        requires
            self@.within(layer@.leaves.len()),
        ensures
            report@ == self@.render(layer@),
        decreases self,
    {
        match &self.0 {
            AssertionWrapper::One { id } => {
                let colour = if layer.satisfied(*id) {
                    Colour::Green
                } else {
                    Colour::Red
                };
                let text = layer.rule(*id).to_string();
                let quoted = quote(text.as_str());
                paint(colour, quoted.as_str())
            },
            AssertionWrapper::And { lhs, rhs } => {
                let left = lhs.ansi(layer);
                let right = rhs.ansi(layer);
                let mut report = String::from_str("(");
                report.append(left.as_str());
                report.append(" && ");
                report.append(right.as_str());
                report.append(")");
                report
            },
            AssertionWrapper::Or { lhs, rhs } => {
                let left = lhs.ansi(layer);
                let right = rhs.ansi(layer);
                let mut report = String::from_str("(");
                report.append(left.as_str());
                report.append(" || ");
                report.append(right.as_str());
                report.append(")");
                report
            },
            AssertionWrapper::Not { assertion } => {
                let inner = assertion.ansi(layer);
                let mut report = String::from_str("!");
                report.append(inner.as_str());
                report
            },
        }
    }

    /// Evaluates the assertion: hands it back if it holds, and its report
    /// if it does not.
    pub fn check(&self, layer: &Layer) -> (outcome: Result<&Assertion, String>)
        requires
            self@.within(layer@.leaves.len()),
        ensures
            outcome is Ok <==> self@.eval(layer@),
            outcome matches Ok(same) ==> same == self,
            outcome matches Err(report) ==> report@ == self@.render(layer@),
    {
        if self.eval(layer) {
            Ok(self)
        } else {
            Err(self.ansi(layer))
        }
    }

    /// The negation of the assertion, over the same expectations.
    ///
    /// Nothing is declared and nothing is changed: in every state the
    /// negation reads as the opposite of the assertion, and a reset of
    /// either reaches the other.
    pub fn not(&self) -> (negation: Assertion)
        ensures
            negation@ == Expr::Not(Box::new(self@)),
            forall|registry: Registry| #[trigger] negation@.eval(registry) == !self@.eval(registry),
            forall|id: usize| #[trigger] negation@.mentions(id) == self@.mentions(id),
            negation@.span() == self@.span(),
    {
        Assertion(AssertionWrapper::Not { assertion: Box::new(self.alias()) })
    }

    /// The conjunction of the assertion and `rhs`, over the same
    /// expectations.
    ///
    /// Nothing is declared and nothing is changed: in every state the
    /// conjunction reads as true exactly if both operands do, and a reset
    /// of an operand reaches it.
    pub fn and(&self, rhs: &Assertion) -> (both: Assertion)
        ensures
            both@ == Expr::And(Box::new(self@), Box::new(rhs@)),
            forall|registry: Registry|
                #[trigger] both@.eval(registry) == (self@.eval(registry) && rhs@.eval(registry)),
            forall|id: usize| #[trigger] both@.mentions(id) == (self@.mentions(id) || rhs@.mentions(id)),
            forall|bound: nat| #[trigger] both@.within(bound) == (self@.within(bound) && rhs@.within(bound)),
    {
        Assertion(AssertionWrapper::And { lhs: Box::new(self.alias()), rhs: Box::new(rhs.alias()) })
    }

    /// The disjunction of the assertion and `rhs`, over the same
    /// expectations.
    ///
    /// Nothing is declared and nothing is changed: in every state the
    /// disjunction reads as true exactly if one of the operands does, and a
    /// reset of an operand reaches it.
    pub fn or(&self, rhs: &Assertion) -> (either: Assertion)
        ensures
            either@ == Expr::Or(Box::new(self@), Box::new(rhs@)),
            forall|registry: Registry|
                #[trigger] either@.eval(registry) == (self@.eval(registry) || rhs@.eval(registry)),
            forall|id: usize| #[trigger] either@.mentions(id) == (self@.mentions(id) || rhs@.mentions(id)),
            forall|bound: nat| #[trigger] either@.within(bound) == (self@.within(bound) && rhs@.within(bound)),
    {
        Assertion(AssertionWrapper::Or { lhs: Box::new(self.alias()), rhs: Box::new(rhs.alias()) })
    }
}

/// After the left operand was repeated, the right operand still names
/// expectations of the registry, and their rules are what they were.
proof fn lemma_repeat_second(lhs: Expr, rhs: Expr, before: Registry, between: Registry)
    requires
        lhs.within(before.leaves.len()),
        rhs.within(before.leaves.len()),
        between == before.declare_all(lhs.rules(before)),
    ensures
        rhs.within(between.leaves.len()),
        rhs.rules(between) == rhs.rules(before),
        between.leaves.len() == before.leaves.len() + lhs.leaves().len(),
{
    lhs.lemma_leaves(before, before.leaves.len());
    rhs.lemma_rules_agree(between, before, before.leaves.len());
}

/// Repeating the left operand and then the right one declares the rules of
/// both, from left to right.
proof fn lemma_repeat_both(lhs: Expr, rhs: Expr, before: Registry, after: Registry)
    requires
        lhs.within(before.leaves.len()),
        rhs.within(before.leaves.len()),
        after == before.declare_all(lhs.rules(before)).declare_all(rhs.rules(before)),
        after.leaves.len() <= usize::MAX,
    ensures
        after == before.declare_all(lhs.rules(before) + rhs.rules(before)),
{
    before.lemma_declare_all_split(lhs.rules(before), rhs.rules(before));
}

} // verus!
