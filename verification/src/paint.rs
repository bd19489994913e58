//! The text of a report: a rule's text in quotes, wrapped in the escape
//! codes of a colour.

use vstd::prelude::*;

verus! {

/// The colours of a report: green for an expectation that reads as
/// satisfied, red for one that does not.
#[derive(Clone, Copy, Debug, PartialEq, Eq, Structural)]
pub enum Colour {
    Green,
    Red,
}

impl Colour {
    /// Green for `true`, red for `false`.
    pub open spec fn of(satisfied: bool) -> Colour {
        if satisfied {
            Colour::Green
        } else {
            Colour::Red
        }
    }

    /// The escape code that switches to the colour.
    pub open spec fn prefix(self) -> Seq<char> {
        match self {
            Colour::Green => "\x1B[32m"@,
            Colour::Red => "\x1B[31m"@,
        }
    }

    /// The escape code that ends any colour.
    pub open spec fn suffix() -> Seq<char> {
        "\x1B[0m"@
    }

    /// `text` in this colour.
    pub open spec fn painted(self, text: Seq<char>) -> Seq<char> {
        self.prefix() + text + Colour::suffix()
    }
}

/// `text` as `Debug` prints a `str`: between double quotes, with the
/// characters that cannot stand there escaped.
pub uninterp spec fn debug_quoted(text: Seq<char>) -> Seq<char>;

/// `ansi_term::Colour::paint`, printed: for one of the plain colours the
/// crate writes `ESC [ 3n m` with the colour's digit, then the text as it
/// is, then the reset code `ESC [ 0 m`.
#[verifier::external_body]
pub(crate) fn paint(colour: Colour, text: &str) -> (painted: String)
    ensures
        painted@ == colour.painted(text@),
{
    let outside = match colour {
        Colour::Green => ansi_term::Colour::Green,
        Colour::Red => ansi_term::Colour::Red,
    };
    outside.paint(text).to_string()
}

/// `format!("{:?}", text)` for a `str`: the result is only named.
#[verifier::external_body]
pub(crate) fn quote(text: &str) -> (quoted: String)
    ensures
        quoted@ == debug_quoted(text@),
{
    format!("{:?}", text)
}

} // verus!
