//! The rendering configuration.
use crate::strategy::Strategy;
use vstd::prelude::*;
use vstd::string::StringExecFns;

verus! {

/// What a renderer reads: how strings are quoted, how scopes are indented,
/// whether record fields are sorted, and which strategy lays the output out.
#[derive(Debug, Hash, PartialEq, Eq, Clone)]
pub struct Settings {
    pub string_delimiter: String,
    pub indentation: String,
    /// Reserved: no rendering rule consults it yet.
    pub typescript_version: String,
    pub strategy: Strategy,
    pub sort: bool,
}

/// The mathematical content of [`Settings`].
pub struct SettingsView {
    pub string_delimiter: Seq<char>,
    pub indentation: Seq<char>,
    pub typescript_version: Seq<char>,
    pub strategy: Strategy,
    pub sort: bool,
}

impl View for Settings {
    type V = SettingsView;

    open spec fn view(&self) -> SettingsView {
        SettingsView {
            string_delimiter: self.string_delimiter@,
            indentation: self.indentation@,
            typescript_version: self.typescript_version@,
            strategy: self.strategy,
            sort: self.sort,
        }
    }
}

impl Settings {
    /// The default configuration: double quotes, four spaces, the tree
    /// strategy, fields in declaration order.
    pub fn new() -> (s: Self)
        ensures
            s.string_delimiter@ == "\""@,
            s.indentation@ == "    "@,
            s.typescript_version@ == "latest"@,
            s.strategy == Strategy::Tree,
            !s.sort,
    {
        Self {
            string_delimiter: String::from_str("\""),
            indentation: String::from_str("    "),
            typescript_version: String::from_str("latest"),
            strategy: Strategy::Tree,
            sort: false,
        }
    }
}

} // verus!
