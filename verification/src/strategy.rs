//! Rendering strategies.
use crate::settings::Settings;
use crate::tree::{declarations, render_tree};
use crate::typing::{Typing, TypingError};
use vstd::prelude::*;

verus! {

/// How a typing is laid out as declarations.
#[derive(Debug, Hash, PartialEq, Eq, Clone, Copy, Structural)]
pub enum Strategy {
    /// Groups declarations by shared structure. Not available yet.
    Family,
    /// Nests each declaration in the namespace of the record that owns it.
    Tree,
}

/// A way to render a typing.
pub trait TypingStrategy {
    /// The declarations of a typing.
    fn fmt_typing(typing: &Typing, settings: &Settings) -> (out: Result<String, TypingError>);
}

struct Family;

impl TypingStrategy for Family {
    fn fmt_typing(_typing: &Typing, _settings: &Settings) -> (out: Result<String, TypingError>)
        ensures
            out == Err::<String, TypingError>(TypingError::NotImplemented),
    {
        Err(TypingError::NotImplemented)
    }
}

struct Tree;

impl TypingStrategy for Tree {
    fn fmt_typing(typing: &Typing, settings: &Settings) -> (out: Result<String, TypingError>)
        ensures
            out matches Ok(text) && text@ == declarations(typing@, settings@),
    {
        Ok(render_tree(typing, settings))
    }
}

impl Strategy {
    /// Renders a typing. The family strategy is not available and fails.
    pub fn to_string(self, typing: &Typing, settings: &Settings) -> (out: Result<String, TypingError>)
        ensures
            match self {
                Strategy::Tree => out matches Ok(text) && text@ == declarations(typing@, settings@),
                Strategy::Family => out == Err::<String, TypingError>(TypingError::NotImplemented),
            },
    {
        match self {
            Strategy::Tree => Tree::fmt_typing(typing, settings),
            Strategy::Family => Family::fmt_typing(typing, settings),
        }
    }
}

} // verus!
