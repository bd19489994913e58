//! The report without its colours: what is left of a report when the escape
//! codes are taken out, and why that is the same in every state.

use crate::expr::Expr;
use crate::paint::debug_quoted;
use crate::paint::Colour;
use crate::registry::Registry;
use vstd::prelude::*;

verus! {

/// Whether `text` begins with the escape code `code`.
pub open spec fn begins_with(text: Seq<char>, code: Seq<char>) -> bool {
    0 < code.len() <= text.len() && text.take(code.len() as int) == code
}

/// `text` with the colour codes deleted: read from the left, every
/// occurrence of the code for green, of the code for red and of the code
/// that ends a colour is left out.
pub open spec fn uncoloured(text: Seq<char>) -> Seq<char>
    decreases text.len(),
{
    if text.len() == 0 {
        text
    } else if begins_with(text, Colour::Green.prefix()) {
        uncoloured(text.skip(Colour::Green.prefix().len() as int))
    } else if begins_with(text, Colour::Red.prefix()) {
        uncoloured(text.skip(Colour::Red.prefix().len() as int))
    } else if begins_with(text, Colour::suffix()) {
        uncoloured(text.skip(Colour::suffix().len() as int))
    } else {
        seq![text[0]] + uncoloured(text.skip(1))
    }
}

/// Whether `c` can stand in a colour code behind its first character.
pub open spec fn continues_code(c: char) -> bool {
    c == '[' || c == '0' || c == '1' || c == '2' || c == '3' || c == 'm'
}

impl Expr {
    /// The report of the expression without colours: each leaf is its
    /// rule's text in quotes, less any colour code that the text itself
    /// holds; operators and parentheses are those of the report.
    pub open spec fn plain(self, registry: Registry) -> Seq<char>
        decreases self,
    {
        match self {
            Expr::Leaf(id) => uncoloured(debug_quoted(registry.leaves[id as int].rule.text())),
            Expr::And(lhs, rhs) => "("@ + lhs.plain(registry) + " && "@ + rhs.plain(registry) + ")"@,
            Expr::Or(lhs, rhs) => "("@ + lhs.plain(registry) + " || "@ + rhs.plain(registry) + ")"@,
            Expr::Not(inner) => "!"@ + inner.plain(registry),
        }
    }
}

/// The three colour codes, character by character.
proof fn lemma_codes()
    ensures
        Colour::Green.prefix() == seq!['\x1B', '[', '3', '2', 'm'],
        Colour::Red.prefix() == seq!['\x1B', '[', '3', '1', 'm'],
        Colour::suffix() == seq!['\x1B', '[', '0', 'm'],
{
    reveal_strlit("\x1B[32m");
    reveal_strlit("\x1B[31m");
    reveal_strlit("\x1B[0m");
    assert(Colour::Green.prefix() =~= seq!['\x1B', '[', '3', '2', 'm']);
    assert(Colour::Red.prefix() =~= seq!['\x1B', '[', '3', '1', 'm']);
    assert(Colour::suffix() =~= seq!['\x1B', '[', '0', 'm']);
}

/// A text of which `code` is a colour code begins with `code` exactly if
/// the text followed by `rest` does, as long as `rest` cannot continue a
/// code that the text breaks off.
proof fn lemma_begins_with_more(text: Seq<char>, rest: Seq<char>, code: Seq<char>)
    requires
        text.len() > 0,
        rest.len() == 0 || !continues_code(rest[0]),
        code == Colour::Green.prefix() || code == Colour::Red.prefix() || code == Colour::suffix(),
    ensures
        begins_with(text + rest, code) == begins_with(text, code),
        begins_with(text, code) ==> (text + rest).skip(code.len() as int) == text.skip(code.len() as int) + rest,
{
    lemma_codes();
    let whole = text + rest;
    let n = code.len() as int;
    if begins_with(text, code) {
        assert(whole.take(n) =~= text.take(n));
        assert(whole.skip(n) =~= text.skip(n) + rest);
    }
    if begins_with(whole, code) {
        if text.len() >= n {
            assert(text.take(n) =~= whole.take(n));
        } else {
            assert(whole.take(n)[text.len() as int] == rest[0]);
            assert(code[text.len() as int] == rest[0]);
        }
    }
}

/// Deleting the codes from a text and from what follows it is deleting
/// them from both together, as long as what follows cannot continue a code
/// that the text breaks off.
proof fn lemma_uncoloured_split(text: Seq<char>, rest: Seq<char>)
    requires
        rest.len() == 0 || !continues_code(rest[0]),
    ensures
        uncoloured(text + rest) == uncoloured(text) + uncoloured(rest),
    decreases text.len(),
{
    let whole = text + rest;
    if text.len() == 0 {
        assert(whole =~= rest);
        assert(uncoloured(text) + uncoloured(rest) =~= uncoloured(rest));
    } else {
        lemma_codes();
        lemma_begins_with_more(text, rest, Colour::Green.prefix());
        lemma_begins_with_more(text, rest, Colour::Red.prefix());
        lemma_begins_with_more(text, rest, Colour::suffix());
        if begins_with(text, Colour::Green.prefix()) {
            lemma_uncoloured_split(text.skip(Colour::Green.prefix().len() as int), rest);
        } else if begins_with(text, Colour::Red.prefix()) {
            lemma_uncoloured_split(text.skip(Colour::Red.prefix().len() as int), rest);
        } else if begins_with(text, Colour::suffix()) {
            lemma_uncoloured_split(text.skip(Colour::suffix().len() as int), rest);
        } else {
            lemma_uncoloured_split(text.skip(1), rest);
            assert(whole.skip(1) =~= text.skip(1) + rest);
            assert(whole[0] == text[0]);
            assert(seq![text[0]] + (uncoloured(text.skip(1)) + uncoloured(rest)) =~= (seq![text[0]] + uncoloured(
                text.skip(1),
            )) + uncoloured(rest));
        }
    }
}

/// A text that holds no escape character holds no colour code.
proof fn lemma_uncoloured_same(text: Seq<char>)
    requires
        forall|i: int| 0 <= i < text.len() ==> text[i] != '\x1B',
    ensures
        uncoloured(text) == text,
    decreases text.len(),
{
    if text.len() > 0 {
        lemma_codes();
        assert(text.take(5)[0] == text[0] || text.len() < 5);
        assert(text.take(4)[0] == text[0] || text.len() < 4);
        lemma_uncoloured_same(text.skip(1));
        assert(seq![text[0]] + text.skip(1) =~= text);
    }
}

/// A colour code in front of a text is deleted whole.
proof fn lemma_uncoloured_code(code: Seq<char>, rest: Seq<char>)
    requires
        code == Colour::Green.prefix() || code == Colour::Red.prefix() || code == Colour::suffix(),
    ensures
        uncoloured(code + rest) == uncoloured(rest),
{
    lemma_codes();
    let whole = code + rest;
    let n = code.len() as int;
    assert(whole.take(n) =~= code);
    assert(whole.skip(n) =~= rest);
    if whole.len() >= 5 {
        assert(whole.take(5)[2] == whole[2]);
        assert(whole.take(5)[3] == whole[3]);
    }
}

impl Expr {
    /// A report begins with the escape character, with `(` or with `!`:
    /// with nothing that could continue a colour code.
    pub proof fn lemma_render_head(self, registry: Registry)
        ensures
            self.render(registry).len() > 0,
            !continues_code(self.render(registry)[0]),
    {
        lemma_codes();
        reveal_strlit("(");
        reveal_strlit("!");
        match self {
            Expr::Leaf(id) => {
                assert(self.render(registry)[0] == Colour::of(registry.satisfied(id)).prefix()[0]);
            },
            Expr::And(lhs, rhs) => {
                assert(self.render(registry)[0] == "("@[0]);
            },
            Expr::Or(lhs, rhs) => {
                assert(self.render(registry)[0] == "("@[0]);
            },
            Expr::Not(inner) => {
                assert(self.render(registry)[0] == "!"@[0]);
            },
        }
    }

    /// A report with its colour codes deleted is the report without
    /// colours.
    pub proof fn lemma_uncoloured_render(self, registry: Registry)
        ensures
            uncoloured(self.render(registry)) == self.plain(registry),
        decreases self,
    {
        lemma_codes();
        match self {
            Expr::Leaf(id) => {
                let colour = Colour::of(registry.satisfied(id));
                let quoted = debug_quoted(registry.leaves[id as int].rule.text());
                assert(self.render(registry) =~= colour.prefix() + (quoted + Colour::suffix()));
                lemma_uncoloured_code(colour.prefix(), quoted + Colour::suffix());
                lemma_uncoloured_split(quoted, Colour::suffix());
                lemma_uncoloured_code(Colour::suffix(), Seq::empty());
                assert(Colour::suffix() + Seq::<char>::empty() =~= Colour::suffix());
                assert(uncoloured(quoted) + Seq::<char>::empty() =~= uncoloured(quoted));
            },
            Expr::And(lhs, rhs) => {
                lhs.lemma_uncoloured_render(registry);
                rhs.lemma_uncoloured_render(registry);
                lhs.lemma_render_head(registry);
                rhs.lemma_render_head(registry);
                lemma_uncoloured_pair(lhs.render(registry), rhs.render(registry), " && "@);
            },
            Expr::Or(lhs, rhs) => {
                lhs.lemma_uncoloured_render(registry);
                rhs.lemma_uncoloured_render(registry);
                lhs.lemma_render_head(registry);
                rhs.lemma_render_head(registry);
                lemma_uncoloured_pair(lhs.render(registry), rhs.render(registry), " || "@);
            },
            Expr::Not(inner) => {
                reveal_strlit("!");
                inner.lemma_uncoloured_render(registry);
                inner.lemma_render_head(registry);
                lemma_uncoloured_same("!"@);
                lemma_uncoloured_split("!"@, inner.render(registry));
            },
        }
    }

    /// The report without colours depends on the rules alone, not on any
    /// latch or on the switch.
    pub proof fn lemma_plain_by_rules(self, a: Registry, b: Registry)
        requires
            self.within(a.leaves.len()),
            a.same_rules(b),
        ensures
            self.plain(a) == self.plain(b),
        decreases self,
    {
        match self {
            Expr::Leaf(id) => {
                assert(a.leaves[id as int].rule == b.leaves[id as int].rule);
            },
            Expr::And(lhs, rhs) => {
                lhs.lemma_plain_by_rules(a, b);
                rhs.lemma_plain_by_rules(a, b);
            },
            Expr::Or(lhs, rhs) => {
                lhs.lemma_plain_by_rules(a, b);
                rhs.lemma_plain_by_rules(a, b);
            },
            Expr::Not(inner) => {
                inner.lemma_plain_by_rules(a, b);
            },
        }
    }
}

/// Deleting the codes from two reports in parentheses around `operator`,
/// where `operator` is ` && ` or ` || `, is deleting them from each report.
proof fn lemma_uncoloured_pair(left: Seq<char>, right: Seq<char>, operator: Seq<char>)
    requires
        operator == " && "@ || operator == " || "@,
        left.len() > 0 && !continues_code(left[0]),
        right.len() > 0 && !continues_code(right[0]),
    ensures
        uncoloured("("@ + left + operator + right + ")"@) == "("@ + uncoloured(left) + operator + uncoloured(right)
            + ")"@,
{
    reveal_strlit("(");
    reveal_strlit(")");
    reveal_strlit(" && ");
    reveal_strlit(" || ");
    lemma_uncoloured_same("("@);
    lemma_uncoloured_same(operator);
    lemma_uncoloured_same(")"@);
    let whole = "("@ + left + operator + right + ")"@;
    assert(whole =~= "("@ + (left + (operator + (right + ")"@))));
    lemma_uncoloured_split("("@, left + (operator + (right + ")"@)));
    lemma_uncoloured_split(left, operator + (right + ")"@));
    lemma_uncoloured_split(operator, right + ")"@);
    lemma_uncoloured_split(right, ")"@);
    assert("("@ + (uncoloured(left) + (operator + (uncoloured(right) + ")"@))) =~= "("@ + uncoloured(left)
        + operator + uncoloured(right) + ")"@);
}

} // verus!
