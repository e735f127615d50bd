//! The pattern of numeric tokens, and the searches that run it.
use crate::typing::TypingError;
use fancy_regex::Regex;
use vstd::prelude::*;
use vstd::string::StringExecFns;

verus! {

#[verifier::external_type_specification]
#[verifier::external_body]
pub struct ExRegex(fancy_regex::Regex);

#[verifier::external_type_specification]
#[verifier::external_body]
pub struct ExRegexError(fancy_regex::Error);

/// Whether the engine accepts `pattern` and compiles it.
pub uninterp spec fn compiles(pattern: Seq<char>) -> bool;

/// The text that a pattern was compiled from.
pub uninterp spec fn source_of(number: NumberPattern) -> Seq<char>;

/// Whether `pattern` matches somewhere in `text`: `None` where the engine
/// gives the search up.
pub uninterp spec fn searched(pattern: Seq<char>, text: Seq<char>) -> Option<bool>;

/// Where the successive matches of `pattern` stand in `text`, none
/// overlapping another, up to the end of the text or to the first search
/// that the engine gives up: for each match the offsets in bytes of its
/// start and of its end.
pub uninterp spec fn spans(pattern: Seq<char>, text: Seq<char>) -> Seq<(usize, usize)>;

/// A pattern compiled with the options that the engine has by default, so
/// that what a search finds depends on the pattern and the text alone.
pub struct NumberPattern {
    regex: Regex,
}

/// Compiles a pattern.
///
/// Trusted: calls `Regex::new`, which compiles with the default options and
/// keeps the text of the pattern. Whether it succeeds depends on the text
/// of the pattern alone; the contract only gives that a name.
#[verifier::external_body]
fn compile_pattern(pattern: &str) -> (compiled: Result<NumberPattern, fancy_regex::Error>)
    ensures
        compiled is Ok <==> compiles(pattern@),
        compiled matches Ok(number) ==> source_of(number) == pattern@,
{
    Regex::new(pattern).map(|regex| NumberPattern { regex })
}

/// The text of a pattern.
///
/// Trusted: calls `Regex::as_str`, which returns the text that the
/// expression was compiled from.
#[verifier::external_body]
fn pattern_text(number: &NumberPattern) -> (text: String)
    ensures
        text@ == source_of(*number),
{
    number.regex.as_str().to_string()
}

impl NumberPattern {
    /// The text of the pattern.
    pub open spec fn source(&self) -> Seq<char> {
        source_of(*self)
    }

    /// Compiles a pattern, if the engine accepts it.
    pub fn compile(pattern: &str) -> (compiled: Result<NumberPattern, TypingError>)
        ensures
            compiled is Ok <==> compiles(pattern@),
            match compiled {
                Ok(number) => number.source() == pattern@,
                Err(error) => error == TypingError::Pattern,
            },
    {
        match compile_pattern(pattern) {
            Ok(number) => Ok(number),
            Err(_) => Err(TypingError::Pattern),
        }
    }

    /// The text of the pattern.
    pub fn as_string(&self) -> (text: String)
        ensures
            text@ == self.source(),
    {
        pattern_text(self)
    }
}

/// Tells whether the pattern matches somewhere in `text`.
///
/// Trusted: calls `Regex::is_match`; a search that fails is `None`. The
/// outcome depends on the pattern and the text alone; the contract only
/// gives it a name.
#[verifier::external_body]
pub(crate) fn is_match(number: &NumberPattern, text: &str) -> (outcome: Option<bool>)
    ensures
        outcome == searched(source_of(*number), text@),
{
    number.regex.is_match(text).ok()
}

/// Where the matches of the pattern stand in `text`.
///
/// Trusted: walks `Regex::find_iter` and takes `Match::start` and
/// `Match::end` of each match, up to the first search that fails. The
/// outcome depends on the pattern and the text alone; the contract only
/// gives it a name.
#[verifier::external_body]
pub(crate) fn find_all(number: &NumberPattern, text: &str) -> (found: Vec<(usize, usize)>)
    ensures
        found@ == spans(source_of(*number), text@),
{
    let mut found = Vec::new();
    for item in number.regex.find_iter(text) {
        match item {
            Ok(token) => found.push((token.start(), token.end())),
            Err(_) => break,
        }
    }
    found
}

/// A number in a radix: `0`, the letter of the radix, then digits, none of
/// which may start the prefix again.
pub open spec fn radix_pattern(letter: Seq<char>, digit: Seq<char>) -> Seq<char> {
    "(?:0"@ + letter + "((?!0"@ + letter + ")"@ + digit + ")+)"@
}

/// The pattern of a numeric token: a binary, octal or hexadecimal number,
/// or a decimal one with an optional fraction and an optional `n` behind
/// it, letters in either case.
pub open spec fn number_pattern() -> Seq<char> {
    "(?i)"@ + radix_pattern("b"@, "[0-1]"@) + "|"@ + radix_pattern("o"@, "[1-7]"@) + "|"@ + radix_pattern(
        "x"@,
        "[\\da-f]"@,
    ) + "|"@ + "(?:\\d+(\\.\\d+)?)"@ + "(?-i)n?"@
}

fn radix(letter: &str, digit: &str) -> (pattern: String)
    ensures
        pattern@ == radix_pattern(letter@, digit@),
{
    let mut pattern = String::from_str("(?:0");
    pattern.append(letter);
    pattern.append("((?!0");
    pattern.append(letter);
    pattern.append(")");
    pattern.append(digit);
    pattern.append(")+)");
    pattern
}

/// Compiles the pattern of numeric tokens.
pub fn number() -> (compiled: Result<NumberPattern, TypingError>)
    ensures
        compiled is Ok <==> compiles(number_pattern()),
        match compiled {
            Ok(number) => number.source() == number_pattern(),
            Err(error) => error == TypingError::Pattern,
        },
{
    let binary = radix("b", "[0-1]");
    let octal = radix("o", "[1-7]");
    let hexa = radix("x", "[\\da-f]");
    let mut pattern = String::from_str("(?i)");
    pattern.append(binary.as_str());
    pattern.append("|");
    pattern.append(octal.as_str());
    pattern.append("|");
    pattern.append(hexa.as_str());
    pattern.append("|");
    pattern.append("(?:\\d+(\\.\\d+)?)");
    pattern.append("(?-i)n?");
    NumberPattern::compile(pattern.as_str())
}

} // verus!
