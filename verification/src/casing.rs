//! Pascal case, as `convert_case` writes it.
use convert_case::{Case, Casing};
use vstd::prelude::*;

verus! {

/// `s` in Pascal case: split at the word boundaries that `convert_case`
/// detects, each word capitalised, the words written without a delimiter.
pub uninterp spec fn pascal_case(s: Seq<char>) -> Seq<char>;

/// Converts `s` to Pascal case.
///
/// Trusted: calls `Casing::to_case` with `Case::Pascal`. The conversion
/// reads nothing but the text; the contract only gives its result a name.
#[verifier::external_body]
pub(crate) fn to_pascal(s: &str) -> (out: String)
    ensures
        out@ == pascal_case(s@),
{
    s.to_case(Case::Pascal)
}

} // verus!
