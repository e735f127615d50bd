//! Union types.
use crate::text::{join, join_strings, views};
use vstd::prelude::*;
use vstd::string::StringExecFns;

verus! {

/// The alternatives of a union type, in order.
pub struct TypingUnion(pub Vec<String>);

/// What stands between two alternatives: a line break, the indentation and
/// a bar.
pub open spec fn union_separator(indentation: Seq<char>) -> Seq<char> {
    "\n"@ + indentation + "| "@
}

/// The union of `values`: `unknown` for none, the value itself for one,
/// else one alternative per line.
pub open spec fn union_text(values: Seq<Seq<char>>, indentation: Seq<char>) -> Seq<char> {
    if values.len() == 0 {
        "unknown"@
    } else {
        join(values, union_separator(indentation))
    }
}

impl View for TypingUnion {
    type V = Seq<Seq<char>>;

    open spec fn view(&self) -> Seq<Seq<char>> {
        views(self.0@)
    }
}

impl TypingUnion {
    /// The union of `values`.
    pub fn new(values: Vec<String>) -> (union: Self)
        ensures
            union@ == views(values@),
    {
        Self(values)
    }

    /// Renders the union, continuation lines behind `indentation`.
    pub fn to_string(self, indentation: &str) -> (out: String)
        ensures
            out@ == union_text(self@, indentation@),
    {
        if self.0.len() == 0 {
            String::from_str("unknown")
        } else {
            let mut separator = String::from_str("\n");
            separator.append(indentation);
            separator.append("| ");
            join_strings(&self.0, separator.as_str())
        }
    }
}

/// A union of one alternative is that alternative.
pub proof fn lemma_union_of_one(value: Seq<char>, indentation: Seq<char>)
    ensures
        union_text(seq![value], indentation) == value,
{
}

} // verus!
