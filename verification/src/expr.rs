//! The model of an assertion: a boolean expression whose leaves are indices
//! of expectations in a registry.

use crate::paint::debug_quoted;
use crate::paint::Colour;
use crate::registry::Registry;
use crate::rule::Rule;
use vstd::prelude::*;

verus! {

/// A boolean expression over expectations, each named by its index in the
/// registry.
pub enum Expr {
    Leaf(usize),
    And(Box<Expr>, Box<Expr>),
    Or(Box<Expr>, Box<Expr>),
    Not(Box<Expr>),
}

impl Expr {
    /// One more than the largest leaf: the number of expectations that a
    /// registry has to hold for the expression to be one over it.
    pub open spec fn span(self) -> nat
        decreases self,
    {
        match self {
            Expr::Leaf(id) => id as nat + 1,
            Expr::And(lhs, rhs) => if lhs.span() >= rhs.span() {
                lhs.span()
            } else {
                rhs.span()
            },
            Expr::Or(lhs, rhs) => if lhs.span() >= rhs.span() {
                lhs.span()
            } else {
                rhs.span()
            },
            Expr::Not(inner) => inner.span(),
        }
    }

    /// Whether every leaf is an index below `bound`.
    pub open spec fn within(self, bound: nat) -> bool {
        self.span() <= bound
    }

    /// The value of the expression in `registry`.
    pub open spec fn eval(self, registry: Registry) -> bool
        decreases self,
    {
        match self {
            Expr::Leaf(id) => registry.satisfied(id),
            Expr::And(lhs, rhs) => lhs.eval(registry) && rhs.eval(registry),
            Expr::Or(lhs, rhs) => lhs.eval(registry) || rhs.eval(registry),
            Expr::Not(inner) => !inner.eval(registry),
        }
    }

    /// The value of the expression when leaf `id` reads as `reading(id)`.
    pub open spec fn eval_by(self, reading: spec_fn(usize) -> bool) -> bool
        decreases self,
    {
        match self {
            Expr::Leaf(id) => reading(id),
            Expr::And(lhs, rhs) => lhs.eval_by(reading) && rhs.eval_by(reading),
            Expr::Or(lhs, rhs) => lhs.eval_by(reading) || rhs.eval_by(reading),
            Expr::Not(inner) => !inner.eval_by(reading),
        }
    }

    /// The value of the expression when every leaf reads as `value`.
    pub open spec fn eval_const(self, value: bool) -> bool {
        self.eval_by(|id: usize| value)
    }

    /// Whether the expression is built without `Not`.
    pub open spec fn positive(self) -> bool
        decreases self,
    {
        match self {
            Expr::Leaf(_) => true,
            Expr::And(lhs, rhs) => lhs.positive() && rhs.positive(),
            Expr::Or(lhs, rhs) => lhs.positive() && rhs.positive(),
            Expr::Not(_) => false,
        }
    }

    /// The leaves from left to right, each as often as it occurs.
    pub open spec fn leaves(self) -> Seq<usize>
        decreases self,
    {
        match self {
            Expr::Leaf(id) => seq![id],
            Expr::And(lhs, rhs) => lhs.leaves() + rhs.leaves(),
            Expr::Or(lhs, rhs) => lhs.leaves() + rhs.leaves(),
            Expr::Not(inner) => inner.leaves(),
        }
    }

    /// Whether expectation `id` is one of the leaves.
    pub open spec fn mentions(self, id: usize) -> bool
        decreases self,
    {
        match self {
            Expr::Leaf(leaf) => leaf == id,
            Expr::And(lhs, rhs) => lhs.mentions(id) || rhs.mentions(id),
            Expr::Or(lhs, rhs) => lhs.mentions(id) || rhs.mentions(id),
            Expr::Not(inner) => inner.mentions(id),
        }
    }

    /// Whether the expression is a single expectation that reads as
    /// satisfied by its own latch. A copy of such an expression reads
    /// otherwise than the expression: the copy is a new expectation.
    pub open spec fn lone_satisfied(self, registry: Registry) -> bool {
        self matches Expr::Leaf(id) && !registry.pass_all && registry.leaves[id as int].latch
    }

    /// The rules of the leaves in `registry`, from left to right.
    pub open spec fn rules(self, registry: Registry) -> Seq<Rule>
        decreases self,
    {
        match self {
            Expr::Leaf(id) => seq![registry.leaves[id as int].rule],
            Expr::And(lhs, rhs) => lhs.rules(registry) + rhs.rules(registry),
            Expr::Or(lhs, rhs) => lhs.rules(registry) + rhs.rules(registry),
            Expr::Not(inner) => inner.rules(registry),
        }
    }

    /// The expression of the same shape whose leaves are, from left to
    /// right, `start`, `start + 1`, and so on.
    pub open spec fn renumbered(self, start: nat) -> Expr
        decreases self,
    {
        match self {
            Expr::Leaf(_) => Expr::Leaf(start as usize),
            Expr::And(lhs, rhs) => Expr::And(
                Box::new(lhs.renumbered(start)),
                Box::new(rhs.renumbered(start + lhs.leaves().len())),
            ),
            Expr::Or(lhs, rhs) => Expr::Or(
                Box::new(lhs.renumbered(start)),
                Box::new(rhs.renumbered(start + lhs.leaves().len())),
            ),
            Expr::Not(inner) => Expr::Not(Box::new(inner.renumbered(start))),
        }
    }

    /// What a copy of the expression is, and what making it does to
    /// `registry`: the copy of a single leaf is a new expectation with the
    /// leaf's rule, declared on the spot; the copy of anything larger is the
    /// expression itself, over the same expectations.
    pub open spec fn copied(self, registry: Registry) -> (Expr, Registry) {
        match self {
            Expr::Leaf(id) => (
                Expr::Leaf(registry.leaves.len() as usize),
                registry.declare(registry.leaves[id as int].rule),
            ),
            _ => (self, registry),
        }
    }

    /// The report of the expression in `registry`: each leaf is its rule's
    /// text in quotes, green where the leaf reads as satisfied and red where
    /// it does not; `And` and `Or` stand in parentheses around `&&` and
    /// `||`, `Not` is a `!` in front.
    pub open spec fn render(self, registry: Registry) -> Seq<char>
        decreases self,
    {
        match self {
            Expr::Leaf(id) => Colour::of(registry.satisfied(id)).painted(
                debug_quoted(registry.leaves[id as int].rule.text()),
            ),
            Expr::And(lhs, rhs) => "("@ + lhs.render(registry) + " && "@ + rhs.render(registry) + ")"@,
            Expr::Or(lhs, rhs) => "("@ + lhs.render(registry) + " || "@ + rhs.render(registry) + ")"@,
            Expr::Not(inner) => "!"@ + inner.render(registry),
        }
    }
}

impl Expr {
    /// `within` says of the expression what it says of each of its leaves,
    /// and there are as many rules as leaves.
    pub proof fn lemma_leaves(self, registry: Registry, bound: nat)
        ensures
            self.within(bound) <==> forall|k: int| 0 <= k < self.leaves().len() ==> (#[trigger] self.leaves()[k]) < bound,
            self.rules(registry).len() == self.leaves().len(),
            self.leaves().len() > 0,
            forall|k: int|
                0 <= k < self.leaves().len() ==> (#[trigger] self.rules(registry)[k]) == registry.leaves[self.leaves()[k] as int].rule,
        decreases self,
    {
        match self {
            Expr::Leaf(_) => {
                if forall|k: int| 0 <= k < self.leaves().len() ==> (#[trigger] self.leaves()[k]) < bound {
                    assert(self.leaves()[0] < bound);
                }
            },
            Expr::And(lhs, rhs) => {
                lhs.lemma_leaves(registry, bound);
                rhs.lemma_leaves(registry, bound);
                lemma_concat_bound(lhs.leaves(), rhs.leaves(), bound);
            },
            Expr::Or(lhs, rhs) => {
                lhs.lemma_leaves(registry, bound);
                rhs.lemma_leaves(registry, bound);
                lemma_concat_bound(lhs.leaves(), rhs.leaves(), bound);
            },
            Expr::Not(inner) => {
                inner.lemma_leaves(registry, bound);
            },
        }
    }

    /// The rules of an expression are the same in two registries that agree
    /// on the rules of its leaves.
    pub proof fn lemma_rules_agree(self, a: Registry, b: Registry, bound: nat)
        requires
            self.within(bound),
            bound <= a.leaves.len(),
            bound <= b.leaves.len(),
            forall|id: int| 0 <= id < bound ==> (#[trigger] a.leaves[id]).rule == b.leaves[id].rule,
        ensures
            self.rules(a) == self.rules(b),
        decreases self,
    {
        match self {
            Expr::Leaf(id) => {
                assert(a.leaves[id as int].rule == b.leaves[id as int].rule);
            },
            Expr::And(lhs, rhs) => {
                lhs.lemma_rules_agree(a, b, bound);
                rhs.lemma_rules_agree(a, b, bound);
            },
            Expr::Or(lhs, rhs) => {
                lhs.lemma_rules_agree(a, b, bound);
                rhs.lemma_rules_agree(a, b, bound);
            },
            Expr::Not(inner) => {
                inner.lemma_rules_agree(a, b, bound);
            },
        }
    }

    /// The leaves are the expectations that the expression mentions.
    pub proof fn lemma_mentions(self, id: usize)
        ensures
            self.mentions(id) <==> self.leaves().contains(id),
        decreases self,
    {
        match self {
            Expr::Leaf(leaf) => {
                if leaf == id {
                    assert(self.leaves()[0] == id);
                }
            },
            Expr::And(lhs, rhs) => {
                lhs.lemma_mentions(id);
                rhs.lemma_mentions(id);
                lemma_concat_contains(lhs.leaves(), rhs.leaves(), id);
            },
            Expr::Or(lhs, rhs) => {
                lhs.lemma_mentions(id);
                rhs.lemma_mentions(id);
                lemma_concat_contains(lhs.leaves(), rhs.leaves(), id);
            },
            Expr::Not(inner) => {
                inner.lemma_mentions(id);
            },
        }
    }

    /// An expression over the first `bound` expectations mentions none
    /// beyond them.
    pub proof fn lemma_within_mentions(self, bound: nat)
        ensures
            self.within(bound) <==> (forall|id: usize| #[trigger] self.mentions(id) ==> id < bound),
        decreases self,
    {
        match self {
            Expr::Leaf(leaf) => {
                assert(self.mentions(leaf));
            },
            Expr::And(lhs, rhs) => {
                lhs.lemma_within_mentions(bound);
                rhs.lemma_within_mentions(bound);
            },
            Expr::Or(lhs, rhs) => {
                lhs.lemma_within_mentions(bound);
                rhs.lemma_within_mentions(bound);
            },
            Expr::Not(inner) => {
                inner.lemma_within_mentions(bound);
            },
        }
        if self.within(bound) {
            assert forall|id: usize| #[trigger] self.mentions(id) implies id < bound by {
                match self {
                    Expr::Leaf(_) => {},
                    Expr::And(lhs, rhs) => {
                        assert(lhs.mentions(id) || rhs.mentions(id));
                    },
                    Expr::Or(lhs, rhs) => {
                        assert(lhs.mentions(id) || rhs.mentions(id));
                    },
                    Expr::Not(inner) => {
                        assert(inner.mentions(id));
                    },
                }
            }
        }
        if forall|id: usize| #[trigger] self.mentions(id) ==> id < bound {
            match self {
                Expr::Leaf(_) => {},
                Expr::And(lhs, rhs) => {
                    assert forall|id: usize| #[trigger] lhs.mentions(id) implies id < bound by {
                        assert(self.mentions(id));
                    }
                    assert forall|id: usize| #[trigger] rhs.mentions(id) implies id < bound by {
                        assert(self.mentions(id));
                    }
                },
                Expr::Or(lhs, rhs) => {
                    assert forall|id: usize| #[trigger] lhs.mentions(id) implies id < bound by {
                        assert(self.mentions(id));
                    }
                    assert forall|id: usize| #[trigger] rhs.mentions(id) implies id < bound by {
                        assert(self.mentions(id));
                    }
                },
                Expr::Not(inner) => {
                    assert forall|id: usize| #[trigger] inner.mentions(id) implies id < bound by {
                        assert(self.mentions(id));
                    }
                },
            }
        }
    }

    /// The value of an expression in a registry is its value under any
    /// reading that gives each of its leaves what the registry gives it.
    pub proof fn lemma_eval_by(self, registry: Registry, reading: spec_fn(usize) -> bool)
        requires
            forall|id: usize| #[trigger] self.mentions(id) ==> registry.satisfied(id) == reading(id),
        ensures
            self.eval(registry) == self.eval_by(reading),
        decreases self,
    {
        match self {
            Expr::Leaf(leaf) => {
                assert(self.mentions(leaf));
            },
            Expr::And(lhs, rhs) => {
                assert forall|id: usize| #[trigger] lhs.mentions(id) implies registry.satisfied(id) == reading(id) by {
                    assert(self.mentions(id));
                }
                assert forall|id: usize| #[trigger] rhs.mentions(id) implies registry.satisfied(id) == reading(id) by {
                    assert(self.mentions(id));
                }
                lhs.lemma_eval_by(registry, reading);
                rhs.lemma_eval_by(registry, reading);
            },
            Expr::Or(lhs, rhs) => {
                assert forall|id: usize| #[trigger] lhs.mentions(id) implies registry.satisfied(id) == reading(id) by {
                    assert(self.mentions(id));
                }
                assert forall|id: usize| #[trigger] rhs.mentions(id) implies registry.satisfied(id) == reading(id) by {
                    assert(self.mentions(id));
                }
                lhs.lemma_eval_by(registry, reading);
                rhs.lemma_eval_by(registry, reading);
            },
            Expr::Not(inner) => {
                assert forall|id: usize| #[trigger] inner.mentions(id) implies registry.satisfied(id) == reading(id) by {
                    assert(self.mentions(id));
                }
                inner.lemma_eval_by(registry, reading);
            },
        }
    }

    /// The value of an expression is the same in two registries in which
    /// its leaves read the same.
    pub proof fn lemma_eval_agree(self, a: Registry, b: Registry)
        requires
            forall|id: usize| #[trigger] self.mentions(id) ==> a.satisfied(id) == b.satisfied(id),
        ensures
            self.eval(a) == self.eval(b),
    {
        let reading = |id: usize| b.satisfied(id);
        self.lemma_eval_by(a, reading);
        self.lemma_eval_by(b, reading);
    }

    /// The value of an expression whose leaves all read as `value`.
    pub proof fn lemma_eval_const(self, registry: Registry, value: bool)
        requires
            forall|id: usize| #[trigger] self.mentions(id) ==> registry.satisfied(id) == value,
        ensures
            self.eval(registry) == self.eval_const(value),
    {
        self.lemma_eval_by(registry, |id: usize| value);
    }

    /// An expression without `Not` is true when all its leaves are, and
    /// false when none is.
    pub proof fn lemma_positive(self)
        requires
            self.positive(),
        ensures
            self.eval_const(true),
            !self.eval_const(false),
        decreases self,
    {
        match self {
            Expr::Leaf(_) => {},
            Expr::And(lhs, rhs) => {
                lhs.lemma_positive();
                rhs.lemma_positive();
            },
            Expr::Or(lhs, rhs) => {
                lhs.lemma_positive();
                rhs.lemma_positive();
            },
            Expr::Not(_) => {},
        }
    }

    /// Renumbering keeps the shape: as many leaves, numbered from `start`
    /// on, and the same value when every leaf reads the same.
    pub proof fn lemma_renumbered(self, start: nat)
        requires
            start + self.leaves().len() <= usize::MAX,
        ensures
            self.renumbered(start).leaves().len() == self.leaves().len(),
            forall|k: int| 0 <= k < self.leaves().len() ==> (#[trigger] self.renumbered(start).leaves()[k]) == start + k,
            forall|id: usize| #[trigger] self.renumbered(start).mentions(id) <==> start <= id < start + self.leaves().len(),
            self.renumbered(start).positive() == self.positive(),
            self.renumbered(start).eval_const(true) == self.eval_const(true),
            self.renumbered(start).eval_const(false) == self.eval_const(false),
        decreases self,
    {
        let copy = self.renumbered(start);
        match self {
            Expr::Leaf(_) => {},
            Expr::And(lhs, rhs) => {
                lhs.lemma_renumbered(start);
                rhs.lemma_renumbered(start + lhs.leaves().len());
            },
            Expr::Or(lhs, rhs) => {
                lhs.lemma_renumbered(start);
                rhs.lemma_renumbered(start + lhs.leaves().len());
            },
            Expr::Not(inner) => {
                inner.lemma_renumbered(start);
            },
        }
        assert forall|id: usize| #[trigger] copy.mentions(id) <==> start <= id < start + self.leaves().len() by {
            copy.lemma_mentions(id);
            if copy.leaves().contains(id) {
                let k = choose|k: int| 0 <= k < copy.leaves().len() && copy.leaves()[k] == id;
                assert(copy.leaves()[k] == start + k);
            }
            if start <= id < start + self.leaves().len() {
                assert(copy.leaves()[id - start] == id);
            }
        }
    }
}

/// Something is in a concatenation exactly if it is in one of the parts.
proof fn lemma_concat_contains(first: Seq<usize>, second: Seq<usize>, id: usize)
    ensures
        (first + second).contains(id) <==> first.contains(id) || second.contains(id),
{
    let whole = first + second;
    if first.contains(id) {
        let k = choose|k: int| 0 <= k < first.len() && first[k] == id;
        assert(whole[k] == id);
    }
    if second.contains(id) {
        let k = choose|k: int| 0 <= k < second.len() && second[k] == id;
        assert(whole[first.len() + k] == id);
    }
    if whole.contains(id) {
        let k = choose|k: int| 0 <= k < whole.len() && whole[k] == id;
        if k < first.len() {
            assert(first[k] == id);
        } else {
            assert(second[k - first.len()] == id);
        }
    }
}

/// Every entry of a concatenation is below a bound exactly if every entry of
/// both parts is.
proof fn lemma_concat_bound(first: Seq<usize>, second: Seq<usize>, bound: nat)
    ensures
        (forall|k: int| 0 <= k < (first + second).len() ==> (#[trigger] (first + second)[k]) < bound) <==> (forall|
            k: int,
        | 0 <= k < first.len() ==> (#[trigger] first[k]) < bound) && (forall|k: int|
            0 <= k < second.len() ==> (#[trigger] second[k]) < bound),
{
    let whole = first + second;
    if forall|k: int| 0 <= k < whole.len() ==> (#[trigger] whole[k]) < bound {
        assert forall|k: int| 0 <= k < first.len() implies (#[trigger] first[k]) < bound by {
            assert(whole[k] == first[k]);
        }
        assert forall|k: int| 0 <= k < second.len() implies (#[trigger] second[k]) < bound by {
            assert(whole[first.len() + k] == second[k]);
        }
    }
}

} // verus!
