//! The model of the registry: every expectation that was ever declared, by
//! its index, the indices of those that still wait for a message, and the
//! switch that makes every expectation read as satisfied.

use crate::rule::Rule;
use vstd::prelude::*;

verus! {

/// One expectation: a latch, and the rule that a message has to satisfy to
/// set it.
pub struct Leaf {
    pub latch: bool,
    pub rule: Rule,
}

/// The state of a layer.
///
/// `leaves` only ever grows, so an index into it names the same expectation
/// for good. `pending` lists, in the order in which they were enrolled, the
/// expectations that the next message is tried against.
pub struct Registry {
    pub pass_all: bool,
    pub leaves: Seq<Leaf>,
    pub pending: Seq<usize>,
}

impl Registry {
    /// The registry without any expectation, with the switch off.
    pub open spec fn empty() -> Registry {
        Registry { pass_all: false, leaves: Seq::empty(), pending: Seq::empty() }
    }

    /// An expectation is pending exactly as long as its latch is clear, and
    /// it is pending once.
    pub open spec fn wf(self) -> bool {
        &&& self.leaves.len() <= usize::MAX
        &&& self.pending.no_duplicates()
        &&& forall|k: int| 0 <= k < self.pending.len() ==> (#[trigger] self.pending[k]) < self.leaves.len()
        &&& forall|id: usize|
            #![trigger self.pending.contains(id)]
            #![trigger self.leaves[id as int]]
            id < self.leaves.len() ==> (self.pending.contains(id) <==> !self.leaves[id as int].latch)
    }

    /// What an assertion reads of expectation `id`: its latch, or `true`
    /// while the switch is on.
    pub open spec fn satisfied(self, id: usize) -> bool {
        self.pass_all || self.leaves[id as int].latch
    }

    /// The registry with the switch set to `pass_all` and nothing else
    /// touched.
    pub open spec fn with_pass_all(self, pass_all: bool) -> Registry {
        Registry { pass_all, leaves: self.leaves, pending: self.pending }
    }

    /// The registry after a new expectation with `rule` was declared: it
    /// takes the next index, its latch is clear, and it is enrolled last.
    pub open spec fn declare(self, rule: Rule) -> Registry {
        Registry {
            pass_all: self.pass_all,
            leaves: self.leaves.push(Leaf { latch: false, rule }),
            pending: self.pending.push(self.leaves.len() as usize),
        }
    }

    /// The registry after one expectation was declared for each of `rules`,
    /// in their order.
    pub open spec fn declare_all(self, rules: Seq<Rule>) -> Registry {
        Registry {
            pass_all: self.pass_all,
            leaves: self.leaves + Seq::new(rules.len(), |i: int| Leaf { latch: false, rule: rules[i] }),
            pending: self.pending + Seq::new(rules.len(), |i: int| (self.leaves.len() + i) as usize),
        }
    }

    /// Whether expectation `id` is left waiting by a message with `payload`.
    pub open spec fn survives(self, payload: Seq<char>) -> spec_fn(usize) -> bool {
        |id: usize| !self.leaves[id as int].rule.accepts(payload)
    }

    /// The registry after a message with `payload` was delivered: every
    /// pending expectation whose rule accepts the payload is latched and
    /// leaves `pending`; the others keep their place.
    pub open spec fn deliver(self, payload: Seq<char>) -> Registry {
        Registry {
            pass_all: self.pass_all,
            leaves: Seq::new(
                self.leaves.len(),
                |id: int|
                    Leaf {
                        latch: self.leaves[id].latch || (self.pending.contains(id as usize)
                            && self.leaves[id].rule.accepts(payload)),
                        rule: self.leaves[id].rule,
                    },
            ),
            pending: self.pending.filter(self.survives(payload)),
        }
    }

    /// The registry after the messages `payloads` were delivered one after
    /// the other.
    pub open spec fn deliver_all(self, payloads: Seq<Seq<char>>) -> Registry
        decreases payloads.len(),
    {
        if payloads.len() == 0 {
            self
        } else {
            self.deliver_all(payloads.drop_last()).deliver(payloads.last())
        }
    }

    /// What an expectation with a clear latch reads after a message with
    /// `payload`: whether its rule accepts the payload, or `true` while the
    /// switch is on.
    pub open spec fn reading_of_next(self, payload: Seq<char>) -> spec_fn(usize) -> bool {
        |id: usize| self.pass_all || self.leaves[id as int].rule.accepts(payload)
    }

    /// What an expectation reads after the expectations `ids` were reset:
    /// what it read before if it is none of them, and its latch is clear
    /// if it is one.
    pub open spec fn reading_after_reset(self, ids: Seq<usize>) -> spec_fn(usize) -> bool {
        |id: usize| self.pass_all || (self.leaves[id as int].latch && !ids.contains(id))
    }

    /// The registry after expectation `id` was reset: a set latch is cleared
    /// and the expectation enrolled again, last; a clear one changes nothing.
    pub open spec fn reset_one(self, id: usize) -> Registry {
        if self.leaves[id as int].latch {
            Registry {
                pass_all: self.pass_all,
                leaves: self.leaves.update(id as int, Leaf { latch: false, rule: self.leaves[id as int].rule }),
                pending: self.pending.push(id),
            }
        } else {
            self
        }
    }

    /// The registry after the expectations `ids` were reset one after the
    /// other.
    pub open spec fn reset_all(self, ids: Seq<usize>) -> Registry
        decreases ids.len(),
    {
        if ids.len() == 0 {
            self
        } else {
            self.reset_all(ids.drop_last()).reset_one(ids.last())
        }
    }

    /// Whether `other` holds the same expectations under the same indices,
    /// with the same rules, whatever their latches.
    pub open spec fn same_rules(self, other: Registry) -> bool {
        &&& self.leaves.len() == other.leaves.len()
        &&& forall|id: int| 0 <= id < self.leaves.len() ==> (#[trigger] self.leaves[id]).rule == other.leaves[id].rule
    }

    /// Declaring keeps the registry well formed.
    pub proof fn lemma_declare(self, rule: Rule)
        requires
            self.wf(),
            self.leaves.len() < usize::MAX,
        ensures
            self.declare(rule).wf(),
    {
        let next = self.declare(rule);
        let fresh = self.leaves.len() as usize;
        assert forall|id: usize| id < next.leaves.len() implies (#[trigger] next.pending.contains(id)
            <==> !next.leaves[id as int].latch) by {
            if id == fresh {
                assert(next.pending[self.pending.len() as int] == id);
            } else {
                assert(next.leaves[id as int] == self.leaves[id as int]);
                if self.pending.contains(id) {
                    let k = choose|k: int| 0 <= k < self.pending.len() && self.pending[k] == id;
                    assert(next.pending[k] == id);
                }
            }
        }
    }

    /// Declaring one rule is declaring a run of one.
    pub proof fn lemma_declare_one(self, rule: Rule)
        ensures
            self.declare(rule) == self.declare_all(seq![rule]),
    {
        assert(self.declare(rule).leaves =~= self.declare_all(seq![rule]).leaves);
        assert(self.declare(rule).pending =~= self.declare_all(seq![rule]).pending);
    }

    /// Declaring several rules is declaring them one after the other.
    pub proof fn lemma_declare_all_split(self, first: Seq<Rule>, second: Seq<Rule>)
        requires
            self.leaves.len() + first.len() + second.len() <= usize::MAX,
        ensures
            self.declare_all(first + second) == self.declare_all(first).declare_all(second),
    {
        let whole = self.declare_all(first + second);
        let parts = self.declare_all(first).declare_all(second);
        assert(whole.leaves =~= parts.leaves);
        assert(whole.pending =~= parts.pending);
    }

    /// Declaring any number of rules keeps the registry well formed, as long
    /// as the indices fit.
    pub proof fn lemma_declare_all(self, rules: Seq<Rule>)
        requires
            self.wf(),
            self.leaves.len() + rules.len() <= usize::MAX,
        ensures
            self.declare_all(rules).wf(),
        decreases rules.len(),
    {
        if rules.len() == 0 {
            assert(self.declare_all(rules).leaves =~= self.leaves);
            assert(self.declare_all(rules).pending =~= self.pending);
        } else {
            let init = rules.drop_last();
            self.lemma_declare_all(init);
            self.declare_all(init).lemma_declare(rules.last());
            self.declare_all(init).lemma_declare_one(rules.last());
            self.lemma_declare_all_split(init, seq![rules.last()]);
            assert(init + seq![rules.last()] =~= rules);
        }
    }

    /// What stays in `pending` after a delivery are the expectations that
    /// were pending and whose rule does not accept the payload.
    pub proof fn lemma_deliver_pending(self, payload: Seq<char>, id: usize)
        ensures
            self.deliver(payload).pending.contains(id) <==> self.pending.contains(id) && !self.leaves[id as int].rule.accepts(
                payload,
            ),
    {
        broadcast use vstd::seq_lib::group_filter_ensures;

        let keep = self.survives(payload);
        let kept = self.pending.filter(keep);
        if kept.contains(id) {
            self.pending.lemma_filter_contains_rev(keep, id);
            let k = choose|k: int| 0 <= k < kept.len() && kept[k] == id;
            assert(keep(kept[k]));
        }
        if self.pending.contains(id) && keep(id) {
            let k = choose|k: int| 0 <= k < self.pending.len() && self.pending[k] == id;
            assert(kept.contains(self.pending[k]));
        }
    }

    /// A delivery keeps the registry well formed.
    pub proof fn lemma_deliver(self, payload: Seq<char>)
        requires
            self.wf(),
        ensures
            self.deliver(payload).wf(),
            self.same_rules(self.deliver(payload)),
    {
        let next = self.deliver(payload);
        lemma_filter_no_duplicates(self.pending, self.survives(payload));
        assert forall|k: int| 0 <= k < next.pending.len() implies (#[trigger] next.pending[k]) < next.leaves.len() by {
            let id = next.pending[k];
            assert(next.pending.contains(id));
            self.lemma_deliver_pending(payload, id);
            let j = choose|j: int| 0 <= j < self.pending.len() && self.pending[j] == id;
            assert(self.pending[j] < self.leaves.len());
        }
        assert forall|id: usize| id < next.leaves.len() implies (#[trigger] next.pending.contains(id)
            <==> !next.leaves[id as int].latch) by {
            self.lemma_deliver_pending(payload, id);
        }
    }

    /// What a delivery does to a latch: it is set afterwards exactly if it
    /// was set before or the rule accepts the payload.
    pub proof fn lemma_deliver_latch(self, payload: Seq<char>, id: usize)
        requires
            self.wf(),
            id < self.leaves.len(),
        ensures
            self.deliver(payload).leaves[id as int].latch == (self.leaves[id as int].latch
                || self.leaves[id as int].rule.accepts(payload)),
            self.deliver(payload).leaves[id as int].rule == self.leaves[id as int].rule,
    {
    }

    /// What any number of deliveries do to a latch: it is set afterwards
    /// exactly if it was set before or the rule accepts one of the
    /// payloads.
    pub proof fn lemma_deliver_all(self, payloads: Seq<Seq<char>>, id: usize)
        requires
            self.wf(),
            id < self.leaves.len(),
        ensures
            self.deliver_all(payloads).wf(),
            self.same_rules(self.deliver_all(payloads)),
            self.deliver_all(payloads).pass_all == self.pass_all,
            self.deliver_all(payloads).leaves[id as int].latch == (self.leaves[id as int].latch || exists|k: int|
                0 <= k < payloads.len() && self.leaves[id as int].rule.accepts(#[trigger] payloads[k])),
        decreases payloads.len(),
    {
        if payloads.len() > 0 {
            let init = payloads.drop_last();
            let before = self.deliver_all(init);
            let rule = self.leaves[id as int].rule;
            self.lemma_deliver_all(init, id);
            before.lemma_deliver(payloads.last());
            before.lemma_deliver_latch(payloads.last(), id);
            assert(before.leaves[id as int].rule == rule);
            if exists|k: int| 0 <= k < init.len() && rule.accepts(#[trigger] init[k]) {
                let k = choose|k: int| 0 <= k < init.len() && rule.accepts(#[trigger] init[k]);
                assert(rule.accepts(payloads[k]));
            }
            if rule.accepts(payloads.last()) {
                assert(rule.accepts(payloads[payloads.len() - 1]));
            }
            if exists|k: int| 0 <= k < payloads.len() && rule.accepts(#[trigger] payloads[k]) {
                let k = choose|k: int| 0 <= k < payloads.len() && rule.accepts(#[trigger] payloads[k]);
                if k < init.len() {
                    assert(rule.accepts(init[k]));
                }
            }
        }
    }

    /// Resetting one expectation keeps the registry well formed.
    pub proof fn lemma_reset_one(self, id: usize)
        requires
            self.wf(),
            id < self.leaves.len(),
        ensures
            self.reset_one(id).wf(),
            self.same_rules(self.reset_one(id)),
            self.reset_one(id).pass_all == self.pass_all,
            forall|other: int|
                0 <= other < self.leaves.len() ==> (#[trigger] self.reset_one(id).leaves[other]).latch == (
                self.leaves[other].latch && other != id),
    {
        let next = self.reset_one(id);
        if self.leaves[id as int].latch {
            assert(!self.pending.contains(id));
            assert forall|i: int, j: int|
                0 <= i < next.pending.len() && 0 <= j < next.pending.len() && i != j implies next.pending[i]
                != next.pending[j] by {
                if i < self.pending.len() {
                    assert(self.pending.contains(self.pending[i]));
                }
                if j < self.pending.len() {
                    assert(self.pending.contains(self.pending[j]));
                }
            }
            assert forall|other: usize| other < next.leaves.len() implies (#[trigger] next.pending.contains(other)
                <==> !next.leaves[other as int].latch) by {
                if other == id {
                    assert(next.pending[self.pending.len() as int] == other);
                } else {
                    assert(next.leaves[other as int] == self.leaves[other as int]);
                    if self.pending.contains(other) {
                        let k = choose|k: int| 0 <= k < self.pending.len() && self.pending[k] == other;
                        assert(next.pending[k] == other);
                    }
                }
            }
        }
    }

    /// Resetting clears exactly the latches that are named, changes no rule
    /// and keeps the registry well formed.
    pub proof fn lemma_reset_all(self, ids: Seq<usize>)
        requires
            self.wf(),
            forall|k: int| 0 <= k < ids.len() ==> (#[trigger] ids[k]) < self.leaves.len(),
        ensures
            self.reset_all(ids).wf(),
            self.same_rules(self.reset_all(ids)),
            self.reset_all(ids).pass_all == self.pass_all,
            forall|id: int|
                0 <= id < self.leaves.len() ==> (#[trigger] self.reset_all(ids).leaves[id]).latch == (
                self.leaves[id].latch && !ids.contains(id as usize)),
        decreases ids.len(),
    {
        if ids.len() > 0 {
            let init = ids.drop_last();
            let before = self.reset_all(init);
            self.lemma_reset_all(init);
            before.lemma_reset_one(ids.last());
            let after = self.reset_all(ids);
            assert forall|id: int| 0 <= id < self.leaves.len() implies (#[trigger] after.leaves[id]).latch == (
            self.leaves[id].latch && !ids.contains(id as usize)) by {
                assert(before.leaves[id].latch == (self.leaves[id].latch && !init.contains(id as usize)));
                if init.contains(id as usize) {
                    let k = choose|k: int| 0 <= k < init.len() && init[k] == id as usize;
                    assert(ids[k] == id as usize);
                }
                if ids.contains(id as usize) && id != ids.last() {
                    let k = choose|k: int| 0 <= k < ids.len() && ids[k] == id as usize;
                    assert(init[k] == id as usize);
                }
                if id == ids.last() {
                    assert(ids[ids.len() - 1] == id as usize);
                }
            }
        }
    }

    /// Resetting two runs of expectations one after the other is resetting
    /// their concatenation.
    pub proof fn lemma_reset_all_split(self, first: Seq<usize>, second: Seq<usize>)
        ensures
            self.reset_all(first + second) == self.reset_all(first).reset_all(second),
        decreases second.len(),
    {
        if second.len() == 0 {
            assert(first + second =~= first);
        } else {
            self.lemma_reset_all_split(first, second.drop_last());
            assert((first + second).drop_last() =~= first + second.drop_last());
            assert((first + second).last() == second.last());
        }
    }
}

/// Filtering a sequence without duplicates leaves no duplicates.
pub proof fn lemma_filter_no_duplicates<A>(s: Seq<A>, keep: spec_fn(A) -> bool)
    requires
        s.no_duplicates(),
    ensures
        s.filter(keep).no_duplicates(),
    decreases s.len(),
{
    reveal(Seq::filter);
    if s.len() > 0 {
        let init = s.drop_last();
        lemma_filter_no_duplicates(init, keep);
        if keep(s.last()) {
            let kept = init.filter(keep);
            if kept.contains(s.last()) {
                init.lemma_filter_contains_rev(keep, s.last());
                let k = choose|k: int| 0 <= k < init.len() && init[k] == s.last();
                assert(s[k] == s[s.len() - 1]);
            }
            assert forall|i: int, j: int|
                0 <= i < kept.push(s.last()).len() && 0 <= j < kept.push(s.last()).len() && i != j implies kept.push(
                s.last(),
            )[i] != kept.push(s.last())[j] by {
                if i < kept.len() {
                    assert(kept.contains(kept[i]));
                }
                if j < kept.len() {
                    assert(kept.contains(kept[j]));
                }
            }
        }
    }
}

} // verus!
