//! Dotted paths of type names.
use crate::casing::{pascal_case, to_pascal};
use crate::text::{char_views, chars_of, join, join_strings, split_chars, split_on, string_of, views};
use vstd::prelude::*;

verus! {

/// A path of type names, outermost first.
#[derive(Debug, Hash, PartialEq, Eq, PartialOrd, Ord, Clone)]
pub struct TypePath {
    pub segments: Vec<String>,
}

impl View for TypePath {
    type V = Seq<Seq<char>>;

    open spec fn view(&self) -> Seq<Seq<char>> {
        views(self.segments@)
    }
}

/// The segments of a dotted path, each in Pascal case.
pub open spec fn parsed_path(s: Seq<char>) -> Seq<Seq<char>> {
    split_on(s, '.').map_values(|segment: Seq<char>| pascal_case(segment))
}

impl TypePath {
    /// The empty path.
    pub fn new() -> (path: Self)
        ensures
            path@ == Seq::<Seq<char>>::empty(),
    {
        let path = Self { segments: Vec::new() };
        assert(path@ =~= Seq::<Seq<char>>::empty());
        path
    }

    /// Reads a dotted path and puts each of its segments in Pascal case.
    pub fn parse(s: &str) -> (path: Self)
        ensures
            path@ == parsed_path(s@),
    {
        let text = chars_of(s);
        let pieces = split_chars(&text, '.');
        let mut segments: Vec<String> = Vec::new();
        let mut i: usize = 0;
        while i < pieces.len()
            invariant
                i <= pieces.len(),
                char_views(pieces@) == split_on(s@, '.'),
                views(segments@) == parsed_path(s@).take(i as int),
            decreases pieces.len() - i,
        {
            let ghost before = views(segments@);
            let piece = string_of(&pieces[i]);
            assert(piece@ == char_views(pieces@)[i as int]);
            let segment = to_pascal(piece.as_str());
            assert(segment@ == parsed_path(s@)[i as int]);
            segments.push(segment);
            assert(views(segments@) =~= before.push(segment@));
            assert(parsed_path(s@).take(i + 1) =~= parsed_path(s@).take(i as int).push(segment@));
            i = i + 1;
        }
        assert(parsed_path(s@).take(pieces.len() as int) == parsed_path(s@));
        Self { segments }
    }

    /// The segments joined by dots.
    pub fn path(&self) -> (out: String)
        ensures
            out@ == join(self@, "."@),
    {
        join_strings(&self.segments, ".")
    }
}

impl TypePath {
    fn followed_by(self, rhs: &TypePath) -> (out: TypePath)
        ensures
            out@ == self@ + rhs@,
    {
        let mut segments = self.segments;
        let ghost before = views(segments@);
        let mut i: usize = 0;
        assert(views(segments@) =~= before + rhs@.take(0));
        while i < rhs.segments.len()
            invariant
                i <= rhs.segments.len(),
                views(segments@) == before + rhs@.take(i as int),
            decreases rhs.segments.len() - i,
        {
            let ghost listed = views(segments@);
            segments.push(rhs.segments[i].clone());
            assert(views(segments@) =~= listed.push(rhs@[i as int]));
            assert(before + rhs@.take(i + 1) =~= (before + rhs@.take(i as int)).push(rhs@[i as int]));
            i = i + 1;
        }
        assert(rhs@.take(rhs.segments.len() as int) == rhs@);
        TypePath { segments }
    }
}

impl core::ops::Add<&TypePath> for TypePath {
    type Output = TypePath;

    /// The path with the segments of `rhs` behind its own.
    fn add(self, rhs: &TypePath) -> (out: TypePath)
        ensures
            out@ == self@ + rhs@,
    {
        self.followed_by(rhs)
    }
}

/// What `+` gives is stated by `add` itself, over the views of the paths.
impl vstd::std_specs::ops::AddSpecImpl<&TypePath> for TypePath {
    open spec fn obeys_add_spec() -> bool {
        false
    }

    open spec fn add_req(self, rhs: &TypePath) -> bool {
        true
    }

    open spec fn add_spec(self, rhs: &TypePath) -> TypePath {
        arbitrary()
    }
}

impl core::ops::Add<&str> for TypePath {
    type Output = TypePath;

    /// The path with the segments of the dotted path `rhs` behind its own.
    fn add(self, rhs: &str) -> (out: TypePath)
        ensures
            out@ == self@ + parsed_path(rhs@),
    {
        let tail = TypePath::parse(rhs);
        self.followed_by(&tail)
    }
}

/// What `+` gives is stated by `add` itself, over the views of the paths.
impl vstd::std_specs::ops::AddSpecImpl<&str> for TypePath {
    open spec fn obeys_add_spec() -> bool {
        false
    }

    open spec fn add_req(self, rhs: &str) -> bool {
        true
    }

    open spec fn add_spec(self, rhs: &str) -> TypePath {
        arbitrary()
    }
}

impl From<&str> for TypePath {
    /// Reads a dotted path, as `parse` does.
    fn from(s: &str) -> (path: TypePath)
        ensures
            path@ == parsed_path(s@),
    {
        TypePath::parse(s)
    }
}

/// What `from` gives is stated by `from` itself, over the view of the path.
impl vstd::std_specs::convert::FromSpecImpl<&str> for TypePath {
    open spec fn obeys_from_spec() -> bool {
        false
    }

    open spec fn from_spec(s: &str) -> TypePath {
        arbitrary()
    }
}

} // verus!
