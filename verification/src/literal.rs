//! Literal types: one string, one number, or one template pattern.
use crate::settings::Settings;
use serde_json::Number;
use vstd::prelude::*;
use vstd::string::StringExecFns;

verus! {

#[verifier::external_type_specification]
#[verifier::external_body]
pub struct ExNumber(serde_json::Number);

/// Trusted: `Clone` for `serde_json::Number`, a derived impl over plain
/// numbers, returns a number equal to the one it was given.
pub assume_specification[ <serde_json::Number as Clone>::clone ](n: &serde_json::Number) -> (copy:
    serde_json::Number)
    ensures
        copy == *n,
;

/// The decimal text that `serde_json` prints for a number.
pub uninterp spec fn number_text(n: Number) -> Seq<char>;

/// The text of a JSON number.
///
/// Trusted: calls `to_string` on `serde_json::Number`, which goes through its
/// `Display` impl; the contract only gives that text its name.
#[verifier::external_body]
fn number_to_string(n: &Number) -> (s: String)
    ensures
        s@ == number_text(*n),
{
    n.to_string()
}

/// A literal type.
#[derive(Debug, PartialEq, Eq, Clone)]
pub enum Literal {
    /// A quoted string.
    String(String),
    /// A number, printed as JSON prints it.
    Number(Number),
    /// A template pattern, printed between backticks.
    Template(String),
}

/// The mathematical content of a [`Literal`].
pub enum LiteralView {
    String(Seq<char>),
    Number(Number),
    Template(Seq<char>),
}

impl View for Literal {
    type V = LiteralView;

    open spec fn view(&self) -> LiteralView {
        match self {
            Literal::String(s) => LiteralView::String(s@),
            Literal::Number(n) => LiteralView::Number(*n),
            Literal::Template(s) => LiteralView::Template(s@),
        }
    }
}

impl LiteralView {
    /// The text of this literal with strings wrapped in `delimiter`.
    pub open spec fn text(self, delimiter: Seq<char>) -> Seq<char> {
        match self {
            LiteralView::String(s) => delimiter + s + delimiter,
            LiteralView::Number(n) => number_text(n),
            LiteralView::Template(s) => "`"@ + s + "`"@,
        }
    }
}

impl Literal {
    /// The string literal `s`.
    pub fn from_str(s: &str) -> (l: Self)
        ensures
            l@ == LiteralView::String(s@),
    {
        Literal::String(String::from_str(s))
    }

    /// Renders the literal as TypeScript writes it.
    pub fn to_string(&self, settings: &Settings) -> (out: String)
        ensures
            out@ == self@.text(settings.string_delimiter@),
    {
        match self {
            Literal::Number(n) => number_to_string(n),
            Literal::Template(s) => {
                let mut out = String::from_str("`");
                out.append(s.as_str());
                out.append("`");
                out
            },
            Literal::String(s) => {
                let mut out = settings.string_delimiter.clone();
                out.append(s.as_str());
                out.append(settings.string_delimiter.as_str());
                out
            },
        }
    }
}

} // verus!
