//! Infers TypeScript declarations from samples of JSON values.
//!
//! A [`Typing`] is a graph of the shapes that a set of samples takes at each
//! position; a [`Strategy`] renders it as nested interfaces, namespaces and
//! type aliases.
pub mod casing;
pub mod classify;
pub mod graph;
pub mod inference;
pub mod interface;
pub mod items;
pub mod literal;
pub mod namespace;
pub mod nesting_level;
pub mod order;
pub mod path;
pub mod regex;
pub mod settings;
pub mod strategy;
pub mod text;
pub mod tree;
pub mod typing;
pub mod union;
pub mod utils;
pub mod value;

pub use interface::{Interface, InterfaceEntry};
pub use items::{ItemEntry, Items};
pub use literal::Literal;
pub use namespace::{Namespace, NamespaceEntry, NamespaceEntryValue};
pub use nesting_level::NestingLevel;
pub use path::TypePath;
pub use settings::Settings;
pub use strategy::{Strategy, TypingStrategy};
pub use typing::{ObjectNode, Typing, TypingError, TypingGraph, TypingNode};
pub use union::TypingUnion;
pub use utils::{add_indentation, upper_first};
pub use value::Value;
