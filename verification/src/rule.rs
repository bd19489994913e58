//! What an expectation looks for in a message: a literal text or a regular
//! expression.

use regex::Regex;
use vstd::prelude::*;

verus! {

/// `regex::Regex`, a compiled regular expression. Nothing is known of what
/// is inside.
#[verifier::external_type_specification]
#[verifier::external_body]
pub struct ExRegex(regex::Regex);

/// `regex::Error`, the reason why a pattern was not compiled. Nothing is
/// known of what is inside.
#[verifier::external_type_specification]
#[verifier::external_body]
pub struct ExRegexError(regex::Error);

/// Whether `regex::Regex::new` compiles `pattern`: whether it is a regular
/// expression in the syntax of the `regex` crate, and one that stays within
/// the size that the crate allows a compiled expression by default.
pub uninterp spec fn regex_compiles(pattern: Seq<char>) -> bool;

/// What `regex::Regex::is_match` says of `haystack` for the expression that
/// `regex::Regex::new` compiles `pattern` to: whether the expression has a
/// match anywhere in `haystack`. It is read only where `pattern` compiles.
pub uninterp spec fn regex_accepts(pattern: Seq<char>, haystack: Seq<char>) -> bool;

/// The words in which `regex::Regex::new` refuses `pattern`: what the
/// `regex::Error` that it returns prints. It is read only where `pattern`
/// does not compile.
pub uninterp spec fn regex_refusal(pattern: Seq<char>) -> Seq<char>;

/// `regex::Regex::new`: compiles `pattern`. Nothing is claimed of the
/// compiled value. The error of a pattern that does not compile comes back
/// as the text that it prints; the contract names whether the pattern is
/// accepted, and that text.
#[verifier::external_body]
fn regex_compile(pattern: &str) -> (r: Result<Regex, String>)
    ensures
        r is Ok <==> regex_compiles(pattern@),
        r matches Err(reason) ==> reason@ == regex_refusal(pattern@),
{
    match Regex::new(pattern) {
        Ok(compiled) => Ok(compiled),
        Err(error) => Err(error.to_string()),
    }
}

/// `regex::Regex::is_match`, on the expression that `regex::Regex::new`
/// compiles `pattern` to. The search is only made, and only named, where
/// the pattern compiles; the error of a pattern that does not is handed on
/// untouched.
#[verifier::external_body]
fn regex_search(pattern: &str, haystack: &str) -> (r: Result<bool, regex::Error>)
    ensures
        r is Ok <==> regex_compiles(pattern@),
        r matches Ok(found) ==> found == regex_accepts(pattern@, haystack@),
{
    match Regex::new(pattern) {
        Ok(compiled) => Ok(compiled.is_match(haystack)),
        Err(error) => Err(error),
    }
}

/// `format!("{:?}", value)` for any value: what comes back is up to the
/// value's `Debug`, so nothing is claimed of it.
#[verifier::external_body]
fn debug_text<T: core::fmt::Debug>(value: &T) -> (text: String) {
    format!("{:?}", value)
}

/// The model of a match rule: the text it holds, as characters.
pub enum Rule {
    /// Satisfied by a message equal to the text.
    Matches(Seq<char>),
    /// Satisfied by a message in which the regular expression finds a match.
    Regex(Seq<char>),
}

impl Rule {
    /// Whether a message with this payload satisfies the rule.
    pub open spec fn accepts(self, payload: Seq<char>) -> bool {
        match self {
            Rule::Matches(text) => text == payload,
            Rule::Regex(pattern) => regex_compiles(pattern) && regex_accepts(pattern, payload),
        }
    }

    /// The text that stands for the rule in a report: the literal, or the
    /// pattern as it was written.
    pub open spec fn text(self) -> Seq<char> {
        match self {
            Rule::Matches(text) => text,
            Rule::Regex(pattern) => pattern,
        }
    }
}

/// A match rule: literal equality, or a regular expression.
///
/// A regular expression is kept as the pattern it was written as, which is
/// what the contracts speak of, and is compiled when a message is tried
/// against it.
#[derive(Debug)]
pub enum AssertionType {
    Matches(String),
    Regex(String),
}

impl View for AssertionType {
    type V = Rule;

    open spec fn view(&self) -> Rule {
        match self {
            AssertionType::Matches(text) => Rule::Matches(text@),
            AssertionType::Regex(pattern) => Rule::Regex(pattern@),
        }
    }
}

impl AssertionType {
    /// Whether `message` satisfies the rule.
    pub fn accepts(&self, message: &String) -> (found: bool)
        ensures
            found == self@.accepts(message@),
    {
        match self {
            AssertionType::Matches(expected) => *expected == *message,
            AssertionType::Regex(pattern) => match regex_search(pattern.as_str(), message.as_str()) {
                Ok(found) => found,
                Err(_) => false,
            },
        }
    }

    /// The text of the rule, as `Rule::text` gives it.
    pub fn to_string(&self) -> (text: String)
        ensures
            text@ == self@.text(),
    {
        match self {
            AssertionType::Matches(text) => text.clone(),
            AssertionType::Regex(pattern) => pattern.clone(),
        }
    }

    /// The literal rule for `text`.
    pub fn matches(text: &str) -> (rule: AssertionType)
        ensures
            rule@ == Rule::Matches(text@),
    {
        AssertionType::Matches(text.to_owned())
    }

    /// The literal rule for what `Debug` prints of `value`.
    ///
    /// The text is up to the value's own `Debug`, which need not print the
    /// same for the same value twice (an address, the order of a hash map),
    /// so it has no name here: the contract says what holds of every text,
    /// and `AssertionType::matches` says what the rule is for a given one.
    pub fn debug<T: core::fmt::Debug>(value: &T) -> (rule: AssertionType)
        ensures
            rule@ is Matches,
    {
        AssertionType::Matches(debug_text(value))
    }

    /// The regular-expression rule for `pattern`, if the regex engine
    /// compiles it; otherwise the engine's error, with the pattern.
    pub fn regex(pattern: &str) -> (made: Result<AssertionType, PatternError>)
        ensures
            made is Ok <==> regex_compiles(pattern@),
            made matches Ok(rule) ==> rule@ == Rule::Regex(pattern@),
            made matches Err(error) ==> error.pattern@ == pattern@ && error.message@ == regex_refusal(pattern@),
    {
        match regex_compile(pattern) {
            Ok(_) => Ok(AssertionType::Regex(pattern.to_owned())),
            Err(reason) => Err(PatternError { pattern: pattern.to_owned(), message: reason }),
        }
    }
}

impl Clone for AssertionType {
    fn clone(&self) -> (copy: AssertionType)
        ensures
            copy@ == self@,
    {
        match self {
            AssertionType::Matches(text) => AssertionType::Matches(text.clone()),
            AssertionType::Regex(pattern) => AssertionType::Regex(pattern.clone()),
        }
    }
}

/// A pattern that is no valid regular expression, with the reason the
/// regex engine gave.
#[derive(Debug)]
pub struct PatternError {
    pub pattern: String,
    pub message: String,
}

impl PatternError {
    /// The reason, in the regex engine's words.
    pub fn to_string(&self) -> (text: String)
        ensures
            text@ == self.message@,
    {
        self.message.clone()
    }
}

} // verus!
