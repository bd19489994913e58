//! What holds of every registry and of every assertion, proved from the
//! model.

use crate::expr::Expr;
use crate::plain::uncoloured;
use crate::registry::Registry;
use crate::rule::Rule;
use vstd::prelude::*;

verus! {

/// An expectation reads as unsatisfied from its declaration until the first
/// message that its rule accepts, and as satisfied from then on: after any
/// run of messages it reads as satisfied exactly if its rule accepts one of
/// them, or the switch is on.
pub proof fn law_expectation_latches(registry: Registry, rule: Rule, payloads: Seq<Seq<char>>)
    requires
        registry.wf(),
        registry.leaves.len() < usize::MAX,
    ensures
        Expr::Leaf(registry.leaves.len() as usize).eval(registry.declare(rule).deliver_all(payloads)) <==> (
        registry.pass_all || exists|k: int| 0 <= k < payloads.len() && rule.accepts(#[trigger] payloads[k])),
{
    registry.lemma_declare(rule);
    registry.declare(rule).lemma_deliver_all(payloads, registry.leaves.len() as usize);
}

/// A latch never falls back under deliveries: an expectation that reads as
/// satisfied keeps doing so whatever is delivered, and one that does not is
/// satisfied by the next message exactly if its rule accepts it.
pub proof fn law_delivery_is_monotonic(registry: Registry, payload: Seq<char>, id: usize)
    requires
        registry.wf(),
        id < registry.leaves.len(),
    ensures
        registry.deliver(payload).wf(),
        registry.deliver(payload).satisfied(id) == (registry.satisfied(id) || registry.leaves[id as int].rule.accepts(
            payload,
        )),
{
    registry.lemma_deliver(payload);
    registry.lemma_deliver_latch(payload, id);
}

/// A reset reaches every assertion that holds one of the expectations that
/// were reset, and no other: afterwards an assertion reads as before with
/// those expectations unsatisfied.
pub proof fn law_reset_is_shared(ids: Seq<usize>, holder: Expr, registry: Registry)
    requires
        registry.wf(),
        forall|k: int| 0 <= k < ids.len() ==> (#[trigger] ids[k]) < registry.leaves.len(),
        holder.within(registry.leaves.len()),
    ensures
        registry.reset_all(ids).wf(),
        holder.eval(registry.reset_all(ids)) == holder.eval_by(registry.reading_after_reset(ids)),
{
    let cleared = registry.reset_all(ids);
    let reading = registry.reading_after_reset(ids);
    registry.lemma_reset_all(ids);
    holder.lemma_within_mentions(registry.leaves.len());
    assert forall|id: usize| #[trigger] holder.mentions(id) implies cleared.satisfied(id) == reading(id) by {
        assert(cleared.leaves[id as int].latch == (registry.leaves[id as int].latch && !ids.contains(id)));
    }
    holder.lemma_eval_by(cleared, reading);
}

/// After a reset every leaf of the assertion reads as unsatisfied, and
/// after the next message it reads as satisfied exactly if its rule accepts
/// that message: what was delivered before the reset no longer counts.
pub proof fn law_reset_starts_over(expr: Expr, registry: Registry, payload: Seq<char>)
    requires
        registry.wf(),
        expr.within(registry.leaves.len()),
    ensures
        registry.reset_all(expr.leaves()).wf(),
        expr.eval(registry.reset_all(expr.leaves())) == expr.eval_const(registry.pass_all),
        expr.eval(registry.reset_all(expr.leaves()).deliver(payload)) == expr.eval_by(
            registry.reading_of_next(payload),
        ),
{
    let ids = expr.leaves();
    let cleared = registry.reset_all(ids);
    let after = cleared.deliver(payload);
    expr.lemma_leaves(registry, registry.leaves.len());
    registry.lemma_reset_all(ids);
    cleared.lemma_deliver(payload);
    expr.lemma_within_mentions(registry.leaves.len());
    assert forall|id: usize| #[trigger] expr.mentions(id) implies cleared.satisfied(id) == registry.pass_all by {
        expr.lemma_mentions(id);
        assert(cleared.leaves[id as int].latch == (registry.leaves[id as int].latch && !ids.contains(id)));
    }
    expr.lemma_eval_const(cleared, registry.pass_all);
    let reading = registry.reading_of_next(payload);
    assert forall|id: usize| #[trigger] expr.mentions(id) implies after.satisfied(id) == reading(id) by {
        cleared.lemma_deliver_latch(payload, id);
        assert(cleared.leaves[id as int].rule == registry.leaves[id as int].rule);
    }
    expr.lemma_eval_by(after, reading);
}

/// Resetting an assertion changes the value of no assertion that shares no
/// expectation with it.
pub proof fn law_reset_is_local(expr: Expr, other: Expr, registry: Registry)
    requires
        registry.wf(),
        expr.within(registry.leaves.len()),
        other.within(registry.leaves.len()),
        forall|id: usize| !(expr.mentions(id) && other.mentions(id)),
    ensures
        other.eval(registry.reset_all(expr.leaves())) == other.eval(registry),
{
    let ids = expr.leaves();
    let cleared = registry.reset_all(ids);
    expr.lemma_leaves(registry, registry.leaves.len());
    registry.lemma_reset_all(ids);
    other.lemma_within_mentions(registry.leaves.len());
    assert forall|id: usize| #[trigger] other.mentions(id) implies cleared.satisfied(id) == registry.satisfied(
        id,
    ) by {
        expr.lemma_mentions(id);
        assert(!(expr.mentions(id) && other.mentions(id)));
        assert(cleared.leaves[id as int].latch == (registry.leaves[id as int].latch && !ids.contains(id)));
    }
    other.lemma_eval_agree(cleared, registry);
}

/// The repeat of an assertion has its shape and its rules over
/// expectations of its own, none of them satisfied: it reads as the
/// assertion would with every latch clear, so, with the switch off, as
/// false where the assertion holds no `Not`, whatever the assertion itself
/// reads. The latter reads as before. Neither shares an expectation with
/// the other, so resetting one does not change the other; and after the
/// next message the repeat reads by that message alone.
pub proof fn law_repeat_is_independent(expr: Expr, registry: Registry, payload: Seq<char>)
    requires
        registry.wf(),
        expr.within(registry.leaves.len()),
        registry.leaves.len() + expr.leaves().len() <= usize::MAX,
    ensures
        ({
            let copy = expr.renumbered(registry.leaves.len());
            let after = registry.declare_all(expr.rules(registry));
            &&& after.wf()
            &&& copy.within(after.leaves.len())
            &&& copy.rules(after) == expr.rules(registry)
            &&& copy.eval(after) == expr.eval_const(registry.pass_all)
            &&& expr.positive() ==> copy.eval(after) == registry.pass_all
            &&& expr.eval(after) == expr.eval(registry)
            &&& forall|id: usize| !(expr.mentions(id) && copy.mentions(id))
            &&& expr.eval(after.reset_all(copy.leaves())) == expr.eval(after)
            &&& copy.eval(after.reset_all(expr.leaves())) == copy.eval(after)
            &&& copy.eval(after.deliver(payload)) == copy.eval_by(after.reading_of_next(payload))
        }),
{
    let start = registry.leaves.len();
    let copy = expr.renumbered(start);
    let rules = expr.rules(registry);
    let after = registry.declare_all(rules);
    expr.lemma_leaves(registry, start);
    expr.lemma_renumbered(start);
    expr.lemma_within_mentions(start);
    registry.lemma_declare_all(rules);
    copy.lemma_within_mentions(after.leaves.len());
    copy.lemma_leaves(after, after.leaves.len());
    assert(copy.rules(after) =~= rules);
    assert forall|id: usize| #[trigger] copy.mentions(id) implies after.satisfied(id) == registry.pass_all by {}
    copy.lemma_eval_const(after, registry.pass_all);
    if expr.positive() {
        expr.lemma_positive();
    }
    assert forall|id: usize| #[trigger] expr.mentions(id) implies after.satisfied(id) == registry.satisfied(id) by {}
    expr.lemma_eval_agree(after, registry);
    law_reset_is_local(copy, expr, after);
    law_reset_is_local(expr, copy, after);
    after.lemma_deliver(payload);
    let reading = after.reading_of_next(payload);
    assert forall|id: usize| #[trigger] copy.mentions(id) implies after.deliver(payload).satisfied(id) == reading(
        id,
    ) by {
        after.lemma_deliver_latch(payload, id);
    }
    copy.lemma_eval_by(after.deliver(payload), reading);
}

/// While the switch is on, every assertion reads as it would with all its
/// leaves satisfied, so as true where it holds no `Not`, whatever the
/// latches are and whenever it was built. The switch touches neither
/// latches nor the pending list, setting it twice is setting it once, and
/// setting it back restores the registry exactly.
pub proof fn law_override_is_read_only(expr: Expr, registry: Registry)
    ensures
        expr.eval(registry.with_pass_all(true)) == expr.eval_const(true),
        expr.positive() ==> expr.eval(registry.with_pass_all(true)),
        registry.with_pass_all(true).leaves == registry.leaves,
        registry.with_pass_all(true).pending == registry.pending,
        registry.with_pass_all(true).with_pass_all(true) == registry.with_pass_all(true),
        registry.with_pass_all(true).with_pass_all(registry.pass_all) == registry,
        expr.eval(registry.with_pass_all(true).with_pass_all(false)) == expr.eval(registry.with_pass_all(false)),
{
    expr.lemma_eval_const(registry.with_pass_all(true), true);
    if expr.positive() {
        expr.lemma_positive();
    }
}

/// Evaluation follows boolean algebra in every registry, so in every
/// state that deliveries, resets and the switch can lead to. `not`, `and`
/// and `or` build these very nodes over their operands.
pub proof fn law_boolean_algebra(x: Expr, y: Expr, registry: Registry)
    ensures
        Expr::Not(Box::new(Expr::Not(Box::new(x)))).eval(registry) == x.eval(registry),
        Expr::And(Box::new(x), Box::new(y)).eval(registry) == (x.eval(registry) && y.eval(registry)),
        Expr::Or(Box::new(x), Box::new(y)).eval(registry) == (x.eval(registry) || y.eval(registry)),
{
    reveal_with_fuel(Expr::eval, 3);
}

/// A copy reads as what it was made from, unless that is a single
/// expectation that is satisfied: the copy of that is a new expectation.
/// Making the copy changes the value of no assertion.
pub proof fn law_copy_reads_the_same(expr: Expr, other: Expr, registry: Registry)
    requires
        registry.wf(),
        registry.leaves.len() < usize::MAX,
        expr.within(registry.leaves.len()),
        other.within(registry.leaves.len()),
    ensures
        ({
            let (copy, after) = expr.copied(registry);
            &&& after.wf()
            &&& copy.within(after.leaves.len())
            &&& other.eval(after) == other.eval(registry)
            &&& !expr.lone_satisfied(registry) ==> copy.eval(after) == expr.eval(registry)
            &&& expr.lone_satisfied(registry) ==> !copy.eval(after)
        }),
{
    let (copy, after) = expr.copied(registry);
    other.lemma_within_mentions(registry.leaves.len());
    match expr {
        Expr::Leaf(id) => {
            registry.lemma_declare(registry.leaves[id as int].rule);
            assert forall|leaf: usize| #[trigger] other.mentions(leaf) implies after.satisfied(leaf)
                == registry.satisfied(leaf) by {}
            other.lemma_eval_agree(after, registry);
        },
        _ => {},
    }
}

/// The colours are all that a report owes to the state: with the colour
/// codes deleted, the report of an assertion is the same whatever the
/// latches and the switch say. Operators, parentheses and texts are those
/// of the assertion and of its rules.
pub proof fn law_report_differs_by_colour_only(expr: Expr, a: Registry, b: Registry)
    requires
        expr.within(a.leaves.len()),
        a.same_rules(b),
    ensures
        uncoloured(expr.render(a)) == uncoloured(expr.render(b)),
        uncoloured(expr.render(a)) == expr.plain(a),
{
    expr.lemma_uncoloured_render(a);
    expr.lemma_uncoloured_render(b);
    expr.lemma_plain_by_rules(a, b);
}

} // verus!
