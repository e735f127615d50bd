//! Nesting depth of a scope.
use crate::text::{repeat, repeat_str};
use vstd::prelude::*;

verus! {

/// How deep a scope is nested.
#[derive(Debug, Hash, PartialEq, Eq, PartialOrd, Ord, Clone, Copy)]
pub struct NestingLevel(pub usize);

impl NestingLevel {
    /// `to_repeat` once for every level.
    pub fn to_string(&self, to_repeat: &str) -> (out: String)
        ensures
            out@ == repeat(to_repeat@, self.0 as nat),
    {
        repeat_str(to_repeat, self.0)
    }
}

impl core::ops::Add for NestingLevel {
    type Output = Self;

    fn add(self, rhs: Self) -> (out: Self) {
        NestingLevel(self.0 + rhs.0)
    }
}

impl vstd::std_specs::ops::AddSpecImpl for NestingLevel {
    open spec fn obeys_add_spec() -> bool {
        true
    }

    open spec fn add_req(self, rhs: Self) -> bool {
        self.0 + rhs.0 <= usize::MAX
    }

    open spec fn add_spec(self, rhs: Self) -> Self {
        NestingLevel((self.0 + rhs.0) as usize)
    }
}

impl core::ops::Sub for NestingLevel {
    type Output = Self;

    /// The levels added: `-` gives what `+` gives.
    fn sub(self, rhs: Self) -> (out: Self) {
        NestingLevel(self.0 + rhs.0)
    }
}

impl vstd::std_specs::ops::SubSpecImpl for NestingLevel {
    open spec fn obeys_sub_spec() -> bool {
        true
    }

    open spec fn sub_req(self, rhs: Self) -> bool {
        self.0 + rhs.0 <= usize::MAX
    }

    open spec fn sub_spec(self, rhs: Self) -> Self {
        NestingLevel((self.0 + rhs.0) as usize)
    }
}

impl From<usize> for NestingLevel {
    fn from(level: usize) -> (out: Self) {
        NestingLevel(level)
    }
}

impl vstd::std_specs::convert::FromSpecImpl<usize> for NestingLevel {
    open spec fn obeys_from_spec() -> bool {
        true
    }

    open spec fn from_spec(level: usize) -> Self {
        NestingLevel(level)
    }
}

} // verus!
