//! Small text utilities: capitalising and indenting.
use crate::text::{char_views, chars_of, join, join_strings, split_chars, split_on, string_of, views};
use unicode_segmentation::UnicodeSegmentation;
use vstd::prelude::*;
use vstd::string::StringExecFns;

verus! {

/// The number of characters in the first extended grapheme cluster of `s`.
pub uninterp spec fn first_grapheme_len(s: Seq<char>) -> nat;

/// `s` in upper case, as `str::to_uppercase` writes it.
pub uninterp spec fn uppercase(s: Seq<char>) -> Seq<char>;

/// Tells whether `c` has the Unicode property `White_Space`: the controls
/// from tab to carriage return, the space, the next-line control, and the
/// spaces and separators of the blocks beyond.
pub open spec fn white_space(c: char) -> bool {
    ||| '\u{0009}' <= c <= '\u{000D}'
    ||| c == '\u{0020}'
    ||| c == '\u{0085}'
    ||| c == '\u{00A0}'
    ||| c == '\u{1680}'
    ||| '\u{2000}' <= c <= '\u{200A}'
    ||| '\u{2028}' <= c <= '\u{2029}'
    ||| c == '\u{202F}'
    ||| c == '\u{205F}'
    ||| c == '\u{3000}'
}

/// Splits `s` after its first extended grapheme cluster.
///
/// Trusted: calls `UnicodeSegmentation::graphemes`, takes the first cluster
/// with `next` and the rest with `Graphemes::as_str`. A text that is not
/// empty has a first cluster, which is not empty; the cluster and the rest
/// make up the text.
#[verifier::external_body]
fn split_first_grapheme(s: &str) -> (parts: Option<(String, String)>)
    ensures
        match parts {
            Some((head, tail)) => {
                &&& 0 < first_grapheme_len(s@) <= s@.len()
                &&& head@ == s@.take(first_grapheme_len(s@) as int)
                &&& tail@ == s@.skip(first_grapheme_len(s@) as int)
            },
            None => s@.len() == 0,
        },
{
    let mut graphemes = s.graphemes(true);
    match graphemes.next() {
        Some(head) => Some((head.to_string(), graphemes.as_str().to_string())),
        None => None,
    }
}

/// `s` in upper case.
///
/// Trusted: calls `str::to_uppercase`; the contract only gives its result a
/// name.
#[verifier::external_body]
fn to_uppercase(s: &str) -> (out: String)
    ensures
        out@ == uppercase(s@),
{
    s.to_uppercase()
}

/// Tells whether `c` is white space.
///
/// Trusted: calls `char::is_whitespace`, which tests the Unicode property
/// `White_Space`; the contract lists the characters that have it.
#[verifier::external_body]
fn is_whitespace(c: char) -> (b: bool)
    ensures
        b == white_space(c),
{
    c.is_whitespace()
}

/// `s` with its first grapheme cluster in upper case.
pub open spec fn upper_first_text(s: Seq<char>) -> Seq<char> {
    if s.len() == 0 {
        s
    } else {
        uppercase(s.take(first_grapheme_len(s) as int)) + s.skip(first_grapheme_len(s) as int)
    }
}

/// Puts the first grapheme cluster of `s` in upper case.
pub fn upper_first(s: &str) -> (out: String)
    ensures
        out@ == upper_first_text(s@),
{
    match split_first_grapheme(s) {
        Some((head, tail)) => {
            let mut out = to_uppercase(head.as_str());
            out.append(tail.as_str());
            out
        },
        None => {
            let out = String::new();
            assert(out@ =~= s@);
            out
        },
    }
}

/// A line that holds nothing but white space.
pub open spec fn is_blank(line: Seq<char>) -> bool {
    forall|i: int| 0 <= i < line.len() ==> white_space(#[trigger] line[i])
}

/// A line behind `indentation`; a blank line as it is.
pub open spec fn indent_line(indentation: Seq<char>, line: Seq<char>) -> Seq<char> {
    if is_blank(line) {
        line
    } else {
        indentation + line
    }
}

/// Every line of `s` that is not blank behind `indentation`.
pub open spec fn indented(indentation: Seq<char>, s: Seq<char>) -> Seq<char> {
    join(split_on(s, '\n').map_values(|line: Seq<char>| indent_line(indentation, line)), "\n"@)
}

fn blank(line: &Vec<char>) -> (b: bool)
    ensures
        b == is_blank(line@),
{
    let mut i: usize = 0;
    while i < line.len()
        invariant
            i <= line.len(),
            forall|j: int| 0 <= j < i ==> white_space(#[trigger] line@[j]),
        decreases line.len() - i,
    {
        if !is_whitespace(line[i]) {
            return false;
        }
        i = i + 1;
    }
    true
}

/// Indents every line of `s` that is not blank.
pub fn add_indentation(indentation: &str, s: &str) -> (out: String)
    ensures
        out@ == indented(indentation@, s@),
{
    let text = chars_of(s);
    let lines = split_chars(&text, '\n');
    let mut indented_lines: Vec<String> = Vec::new();
    let mut i: usize = 0;
    while i < lines.len()
        invariant
            i <= lines.len(),
            char_views(lines@) == split_on(s@, '\n'),
            views(indented_lines@) == split_on(s@, '\n').take(i as int).map_values(
                |line: Seq<char>| indent_line(indentation@, line),
            ),
        decreases lines.len() - i,
    {
        let ghost before = views(indented_lines@);
        let ghost target = split_on(s@, '\n').map_values(|line: Seq<char>| indent_line(indentation@, line));
        let line = string_of(&lines[i]);
        assert(line@ == char_views(lines@)[i as int]);
        let indented_line = if blank(&lines[i]) {
            line
        } else {
            let mut indented_line = String::from_str(indentation);
            indented_line.append(line.as_str());
            indented_line
        };
        assert(indented_line@ == target[i as int]);
        indented_lines.push(indented_line);
        assert(views(indented_lines@) =~= before.push(indented_line@));
        assert(split_on(s@, '\n').take(i + 1).map_values(|line: Seq<char>| indent_line(indentation@, line))
            =~= split_on(s@, '\n').take(i as int).map_values(
            |line: Seq<char>| indent_line(indentation@, line),
        ).push(indented_line@));
        i = i + 1;
    }
    assert(split_on(s@, '\n').take(lines.len() as int) == split_on(s@, '\n'));
    join_strings(&indented_lines, "\n")
}

} // verus!
