//! The layer: the registry of expectations and the entry point for messages.

use crate::assertion::Assertion;
use crate::expr::Expr;
use crate::registry::Leaf;
use crate::registry::Registry;
use crate::rule::regex_compiles;
use crate::rule::regex_refusal;
use crate::rule::AssertionType;
use crate::rule::PatternError;
use crate::rule::Rule;
use vstd::prelude::*;

verus! {

/// One expectation as the layer keeps it.
#[derive(Debug)]
struct InnerAssertion {
    boolean: bool,
    assertion_type: AssertionType,
}

impl View for InnerAssertion {
    type V = Leaf;

    closed spec fn view(&self) -> Leaf {
        Leaf { latch: self.boolean, rule: self.assertion_type@ }
    }
}

/// The assertion layer.
#[derive(Debug)]
pub struct Layer {
    pass_all: bool,
    leaves: Vec<InnerAssertion>,
    pending: Vec<usize>,
}

impl View for Layer {
    type V = Registry;

    closed spec fn view(&self) -> Registry {
        Registry {
            pass_all: self.pass_all,
            leaves: self.leaves@.map_values(|leaf: InnerAssertion| leaf@),
            pending: self.pending@,
        }
    }
}

impl Layer {
    /// The layer's invariant: that of its registry.
    pub open spec fn wf(&self) -> bool {
        self@.wf()
    }

    /// A layer without expectations, with the switch off.
    pub fn new() -> (layer: Layer)
        ensures
            layer@ == Registry::empty(),
            layer.wf(),
    {
        let layer = Layer { pass_all: false, leaves: Vec::new(), pending: Vec::new() };
        assert(layer@.leaves =~= Registry::empty().leaves);
        layer
    }

    /// The number of expectations that were ever declared.
    pub fn len(&self) -> (count: usize)
        ensures
            count == self@.leaves.len(),
    {
        self.leaves.len()
    }

    /// Whether the layer is disabled, so that every expectation reads as
    /// satisfied.
    pub fn is_disabled(&self) -> (disabled: bool)
        ensures
            disabled == self@.pass_all,
    {
        self.pass_all
    }

    /// The latch of expectation `id`, if there is such an expectation.
    pub fn latch(&self, id: usize) -> (latch: Option<bool>)
        ensures
            latch == if id < self@.leaves.len() {
                Some(self@.leaves[id as int].latch)
            } else {
                None::<bool>
            },
    {
        if id < self.leaves.len() {
            Some(self.leaves[id].boolean)
        } else {
            None
        }
    }

    /// The expectations that wait for a message, in the order in which the
    /// next message is tried against them.
    pub fn pending(&self) -> (ids: Vec<usize>)
        ensures
            ids@ == self@.pending,
    {
        let mut ids: Vec<usize> = Vec::new();
        let mut i: usize = 0;
        while i < self.pending.len()
            invariant
                i <= self.pending.len(),
                ids@ == self.pending@.take(i as int),
            decreases self.pending.len() - i,
        {
            ids.push(self.pending[i]);
            i += 1;
            proof {
                assert(ids@ =~= self.pending@.take(i as int));
            }
        }
        proof {
            assert(self.pending@.take(i as int) =~= self.pending@);
        }
        ids
    }

    /// Whether expectation `id` waits for a message.
    pub fn is_pending(&self, id: usize) -> (waiting: bool)
        ensures
            waiting == self@.pending.contains(id),
    {
        let mut i: usize = 0;
        while i < self.pending.len()
            invariant
                i <= self.pending.len(),
                forall|k: int| 0 <= k < i ==> self.pending@[k] != id,
            decreases self.pending.len() - i,
        {
            if self.pending[i] == id {
                return true;
            }
            i += 1;
        }
        false
    }

    /// Enrols a new expectation with `rule` and hands out its assertion.
    pub(crate) fn declare(&mut self, rule: AssertionType) -> (assertion: Assertion)
        requires
            old(self).wf(),
        ensures
            final(self)@ == old(self)@.declare(rule@),
            final(self).wf(),
            assertion@ == Expr::Leaf(old(self)@.leaves.len() as usize),
    {
        let id: usize = self.leaves.len();
        self.leaves.push(InnerAssertion { boolean: false, assertion_type: rule });
        self.pending.push(id);
        proof {
            assert(self.leaves.len() == id + 1);
            assert(self@.leaves =~= old(self)@.declare(rule@).leaves);
            old(self)@.lemma_declare(rule@);
        }
        Assertion::one(id)
    }

    /// Creates a string matching assertion: it is satisfied by the first
    /// message from now on that equals `s`.
    pub fn matches(&mut self, s: &str) -> (assertion: Assertion)
        requires
            old(self).wf(),
        ensures
            final(self)@ == old(self)@.declare(Rule::Matches(s@)),
            final(self).wf(),
            assertion@ == Expr::Leaf(old(self)@.leaves.len() as usize),
    {
        self.declare(AssertionType::matches(s))
    }

    /// Creates a string matching assertion on the debug string of a value.
    ///
    /// The text is whatever the value's `Debug` prints, so the contract
    /// only says that one literal expectation was declared.
    pub fn debug<T: core::fmt::Debug>(&mut self, s: T) -> (assertion: Assertion)
        requires
            old(self).wf(),
        ensures
            exists|text: Seq<char>| final(self)@ == old(self)@.declare(Rule::Matches(text)),
            final(self).wf(),
            assertion@ == Expr::Leaf(old(self)@.leaves.len() as usize),
    {
        self.declare(AssertionType::debug(&s))
    }

    /// Creates a regex matching assertion, or says why `s` is no regular
    /// expression; the layer is then left as it was.
    pub fn regex(&mut self, s: &str) -> (made: Result<Assertion, PatternError>)
        requires
            old(self).wf(),
        ensures
            final(self).wf(),
            made is Ok <==> regex_compiles(s@),
            made matches Ok(assertion) ==> {
                &&& final(self)@ == old(self)@.declare(Rule::Regex(s@))
                &&& assertion@ == Expr::Leaf(old(self)@.leaves.len() as usize)
            },
            made matches Err(error) ==> {
                &&& final(self)@ == old(self)@
                &&& error.pattern@ == s@
                &&& error.message@ == regex_refusal(s@)
            },
    {
        match AssertionType::regex(s) {
            Ok(rule) => Ok(self.declare(rule)),
            Err(error) => Err(error),
        }
    }

    /// What an assertion reads of expectation `id`.
    pub(crate) fn satisfied(&self, id: usize) -> (value: bool)
        requires
            id < self@.leaves.len(),
        ensures
            value == self@.satisfied(id),
    {
        if self.pass_all {
            true
        } else {
            self.leaves[id].boolean
        }
    }

    /// The rule of expectation `id`.
    pub(crate) fn rule(&self, id: usize) -> (rule: &AssertionType)
        requires
            id < self@.leaves.len(),
        ensures
            rule@ == self@.leaves[id as int].rule,
    {
        &self.leaves[id].assertion_type
    }

    /// Clears the latch of expectation `id`; if it was set, the expectation
    /// is enrolled again.
    pub(crate) fn reset_one(&mut self, id: usize)
        requires
            old(self).wf(),
            id < old(self)@.leaves.len(),
        ensures
            final(self)@ == old(self)@.reset_one(id),
            final(self).wf(),
    {
        if self.leaves[id].boolean {
            self.leaves[id].boolean = false;
            self.pending.push(id);
            proof {
                assert(self@.leaves =~= old(self)@.reset_one(id).leaves);
            }
        }
        proof {
            old(self)@.lemma_reset_one(id);
        }
    }

    /// Hands a message to the layer: every pending expectation whose rule
    /// accepts `payload` is latched and no longer tried; the others stay
    /// pending, in their order.
    pub fn deliver(&mut self, payload: &str)
        requires
            old(self).wf(),
        ensures
            final(self)@ == old(self)@.deliver(payload@),
            final(self).wf(),
    {
        let message = payload.to_owned();
        let ghost before = self@;
        let ghost keep = before.survives(payload@);
        let ghost mut tried: int = 0;
        let mut i: usize = 0;
        while i < self.pending.len()
            invariant
                before.wf(),
                message@ == payload@,
                keep == before.survives(payload@),
                0 <= tried <= before.pending.len(),
                i == before.pending.take(tried).filter(keep).len(),
                self.pending@ == before.pending.take(tried).filter(keep) + before.pending.skip(tried),
                self.pass_all == before.pass_all,
                self.leaves@.len() == before.leaves.len(),
                forall|id: int|
                    0 <= id < before.leaves.len() ==> (#[trigger] self.leaves@[id])@.rule == before.leaves[id].rule,
                forall|id: int|
                    0 <= id < before.leaves.len() ==> (#[trigger] self.leaves@[id])@.latch == (before.leaves[id].latch
                        || (before.pending.take(tried).contains(id as usize) && before.leaves[id].rule.accepts(
                        payload@,
                    ))),
            decreases before.pending.len() - tried,
        {
            let id: usize = self.pending[i];
            proof {
                assert(before.pending.skip(tried)[0] == id);
                lemma_take_next(before.pending, tried, keep);
            }
            let result = self.leaves[id].assertion_type.accepts(&message);
            if result {
                self.leaves[id].boolean = true;
                self.pending.remove(i);
                proof {
                    assert(self.pending@ =~= before.pending.take(tried + 1).filter(keep) + before.pending.skip(
                        tried + 1,
                    ));
                }
            } else {
                i += 1;
                proof {
                    assert(self.pending@ =~= before.pending.take(tried + 1).filter(keep) + before.pending.skip(
                        tried + 1,
                    ));
                }
            }
            proof {
                tried = tried + 1;
            }
        }
        proof {
            assert(before.pending.take(tried) =~= before.pending);
            assert(self@.pending =~= before.deliver(payload@).pending);
            assert(self@.leaves =~= before.deliver(payload@).leaves);
            before.lemma_deliver(payload@);
        }
    }

    /// The inverse of [`Layer::disable`]: assertions read the latches again.
    pub fn enable(&mut self)
        ensures
            final(self)@ == old(self)@.with_pass_all(false),
    {
        self.pass_all = false;
    }

    /// Tells all expectations to read as satisfied, without touching them.
    pub fn disable(&mut self)
        ensures
            final(self)@ == old(self)@.with_pass_all(true),
    {
        self.pass_all = true;
    }
}

impl Default for Layer {
    fn default() -> (layer: Layer)
        ensures
            layer@ == Registry::empty(),
            layer.wf(),
    {
        Layer::new()
    }
}

/// What trying one more entry of `s` adds to the entries tried so far, and
/// to those of them that `keep` lets through.
proof fn lemma_take_next<A>(s: Seq<A>, n: int, keep: spec_fn(A) -> bool)
    requires
        0 <= n < s.len(),
    ensures
        s.take(n + 1).filter(keep) == if keep(s[n]) {
            s.take(n).filter(keep).push(s[n])
        } else {
            s.take(n).filter(keep)
        },
        forall|x: A| #[trigger] s.take(n + 1).contains(x) <==> s.take(n).contains(x) || x == s[n],
{
    reveal(Seq::filter);
    let shorter = s.take(n);
    let longer = s.take(n + 1);
    assert(longer.drop_last() =~= shorter);
    assert(longer.last() == s[n]);
    assert forall|x: A| #[trigger] longer.contains(x) <==> shorter.contains(x) || x == s[n] by {
        if shorter.contains(x) {
            let k = choose|k: int| 0 <= k < shorter.len() && shorter[k] == x;
            assert(longer[k] == x);
        }
        if x == s[n] {
            assert(longer[n] == x);
        }
        if longer.contains(x) {
            let k = choose|k: int| 0 <= k < longer.len() && longer[k] == x;
            if k < n {
                assert(shorter[k] == x);
            }
        }
    }
}

} // verus!
