//! The string classifier: wide string, enumeration of literals, or
//! template patterns.
use crate::literal::{Literal, LiteralView};
use crate::regex::{find_all, is_match, searched, spans, NumberPattern};
use crate::text::{chars_of, distinct, distinct_strings, extend_chars, lemma_distinct, string_of, views};
use crate::typing::{TypingNode, TypingNodeView};
use crate::value::{value_views, Value, ValueView};
use vstd::prelude::*;
use vstd::string::StringExecFns;
use vstd::utf8::encode_utf8;

verus! {

/// What a run of strings is typed as.
#[derive(Debug, Hash, PartialEq, Eq, Clone, Copy, Structural)]
pub enum StringShape {
    /// The generic string type.
    Wide,
    /// One literal per distinct string.
    Literals,
    /// One template per distinct rewritten string.
    Templates,
}

/// The length of `s` in bytes of UTF-8.
pub open spec fn byte_len(s: Seq<char>) -> nat {
    encode_utf8(s).len()
}

/// The strings of a run that are not empty, in order.
pub open spec fn texts_of(values: Seq<ValueView>) -> Seq<Seq<char>>
    decreases values.len(),
{
    if values.len() == 0 {
        Seq::empty()
    } else {
        match values.last() {
            ValueView::String(s) if byte_len(s) > 0 => texts_of(values.drop_last()).push(s),
            _ => texts_of(values.drop_last()),
        }
    }
}

/// The length in bytes of the longest of `strings`, zero when there is none.
pub open spec fn longest(strings: Seq<Seq<char>>) -> nat
    decreases strings.len(),
{
    if strings.len() == 0 {
        0
    } else if byte_len(strings.last()) > longest(strings.drop_last()) {
        byte_len(strings.last())
    } else {
        longest(strings.drop_last())
    }
}

/// How many of `flags` are set.
pub open spec fn count_set(flags: Seq<bool>) -> nat
    decreases flags.len(),
{
    if flags.len() == 0 {
        0
    } else {
        count_set(flags.drop_last()) + if flags.last() {
            1nat
        } else {
            0nat
        }
    }
}

/// The decision. With a duplicate among `total` strings whose distinct ones
/// are `uniques`: templates when the longest has at most 32 bytes and more
/// than half of the distinct ones hold a number; else literals when the
/// longest has at most 16 bytes; else the wide string.
pub open spec fn shape_of(total: nat, uniques: Seq<Seq<char>>, numeric: nat) -> StringShape {
    let duplicates = total - uniques.len();
    if 1 <= longest(uniques) <= 32 && duplicates >= 1 && numeric > uniques.len() / 2 {
        StringShape::Templates
    } else if 1 <= longest(uniques) <= 16 && duplicates >= 1 {
        StringShape::Literals
    } else {
        StringShape::Wide
    }
}

/// What stands for a token: `${bigint}` behind a final `n`, else
/// `${number}`.
pub open spec fn placeholder(token: Seq<char>) -> Seq<char> {
    if token.len() > 0 && token.last() == 'n' {
        "${bigint}"@
    } else {
        "${number}"@
    }
}

/// The number of bytes that `c` takes in UTF-8.
pub open spec fn utf8_width(c: char) -> nat {
    if c <= '\u{7F}' {
        1
    } else if c <= '\u{7FF}' {
        2
    } else if c <= '\u{FFFF}' {
        3
    } else {
        4
    }
}

/// How many characters from the start of `text` take `bytes` bytes: none
/// where the offset lies outside the text or inside a character.
pub open spec fn chars_in(text: Seq<char>, bytes: int) -> Option<nat>
    decreases text.len(),
{
    if bytes == 0 {
        Some(0nat)
    } else if bytes < 0 || text.len() == 0 {
        None
    } else {
        match chars_in(text.skip(1), bytes - utf8_width(text[0])) {
            Some(n) => Some(n + 1),
            None => None,
        }
    }
}

/// A count of characters moved on by `by`.
pub open spec fn moved(count: Option<nat>, by: nat) -> Option<nat> {
    match count {
        Some(n) => Some(n + by),
        None => None,
    }
}

/// `rest`, which starts at the offset `at` of a text, with each match that
/// `found` places in it replaced, at its own place, by its placeholder. A
/// span that does not lie in `rest` between two characters is passed over.
pub open spec fn rewritten(rest: Seq<char>, at: int, found: Seq<(usize, usize)>) -> Seq<char>
    decreases found.len(),
{
    if found.len() == 0 {
        rest
    } else {
        let start = chars_in(rest, found[0].0 - at);
        let end = chars_in(rest, found[0].1 - at);
        if start is Some && end is Some && start->0 <= end->0 {
            rest.take(start->0 as int) + placeholder(rest.subrange(start->0 as int, end->0 as int)) + rewritten(
                rest.skip(end->0 as int),
                found[0].1 as int,
                found.skip(1),
            )
        } else {
            rewritten(rest, at, found.skip(1))
        }
    }
}

/// `text` with each match replaced by its placeholder, where `found` gives
/// the offsets in bytes of the start and the end of each match, in order.
pub open spec fn template_of(text: Seq<char>, found: Seq<(usize, usize)>) -> Seq<char> {
    rewritten(text, 0, found)
}

/// The number of bytes that `s` takes in UTF-8, character by character.
pub open spec fn utf8_len(s: Seq<char>) -> nat
    decreases s.len(),
{
    if s.len() == 0 {
        0
    } else {
        utf8_width(s[0]) + utf8_len(s.skip(1))
    }
}

/// The bytes of two texts add up.
pub proof fn lemma_utf8_len_sum(a: Seq<char>, b: Seq<char>)
    ensures
        utf8_len(a + b) == utf8_len(a) + utf8_len(b),
    decreases a.len(),
{
    if a.len() == 0 {
        assert(a + b =~= b);
    } else {
        lemma_utf8_len_sum(a.skip(1), b);
        assert((a + b).skip(1) =~= a.skip(1) + b);
    }
}

/// The offset behind a part of a text is the place of the character that
/// follows the part.
pub proof fn lemma_chars_in_part(a: Seq<char>, b: Seq<char>)
    ensures
        chars_in(a + b, utf8_len(a) as int) == Some(a.len()),
    decreases a.len(),
{
    if a.len() > 0 {
        lemma_chars_in_part(a.skip(1), b);
        assert((a + b).skip(1) =~= a.skip(1) + b);
    }
}

/// A match is replaced at its own place: what stands before it and what
/// stands behind it stay, also where they hold the text of the match.
pub proof fn lemma_one_match(before: Seq<char>, token: Seq<char>, after: Seq<char>, start: usize, end: usize)
    requires
        start == utf8_len(before),
        end == start + utf8_len(token),
    ensures
        template_of(before + token + after, seq![(start, end)]) == before + placeholder(token) + after,
{
    let text = before + token + after;
    let found = seq![(start, end)];
    lemma_chars_in_part(before, token + after);
    lemma_chars_in_part(before + token, after);
    lemma_utf8_len_sum(before, token);
    assert(before + (token + after) =~= text);
    assert(text.take(before.len() as int) =~= before);
    assert(text.subrange(before.len() as int, (before.len() + token.len()) as int) =~= token);
    assert(text.skip((before.len() + token.len()) as int) =~= after);
    assert(found.skip(1) =~= Seq::<(usize, usize)>::empty());
    assert(rewritten(after, end as int, found.skip(1)) == after);
}

/// The distinct templates of `uniques`, where `found[i]` holds the places
/// of the matches in `uniques[i]`.
pub open spec fn templates(uniques: Seq<Seq<char>>, found: Seq<Seq<(usize, usize)>>) -> Seq<Seq<char>> {
    distinct(Seq::new(uniques.len(), |i: int| template_of(uniques[i], found[i])))
}

/// The node of a string literal.
pub open spec fn string_node(text: Seq<char>) -> TypingNodeView {
    TypingNodeView::Literal(LiteralView::String(text))
}

/// The node of a template.
pub open spec fn template_node(text: Seq<char>) -> TypingNodeView {
    TypingNodeView::Literal(LiteralView::Template(text))
}

/// The nodes that a run of strings is typed as, given which distinct
/// strings hold a number and the places of the matches in each.
pub open spec fn classified_with(strings: Seq<Seq<char>>, numeric: nat, found: Seq<Seq<(usize, usize)>>) -> Seq<
    TypingNodeView,
> {
    let uniques = distinct(strings);
    match shape_of(strings.len(), uniques, numeric) {
        StringShape::Templates => templates(uniques, found).map_values(|text: Seq<char>| template_node(text)),
        StringShape::Literals => uniques.map_values(|text: Seq<char>| string_node(text)),
        StringShape::Wide => seq![TypingNodeView::String],
    }
}

/// Which of `uniques` the pattern matches somewhere.
pub open spec fn numeric_flags(uniques: Seq<Seq<char>>, pattern: Seq<char>) -> Seq<bool> {
    Seq::new(uniques.len(), |i: int| searched(pattern, uniques[i]) == Some(true))
}

/// The places of the matches that the pattern finds in each of `uniques`.
pub open spec fn spans_of(uniques: Seq<Seq<char>>, pattern: Seq<char>) -> Seq<Seq<(usize, usize)>> {
    Seq::new(uniques.len(), |i: int| spans(pattern, uniques[i]))
}

/// The nodes that a run of strings is typed as under a pattern of numeric
/// tokens.
pub open spec fn classified(strings: Seq<Seq<char>>, pattern: Seq<char>) -> Seq<TypingNodeView> {
    let uniques = distinct(strings);
    classified_with(strings, count_set(numeric_flags(uniques, pattern)), spans_of(uniques, pattern))
}

/// The longest of `strings` is as long as one of them, and none is longer.
pub proof fn lemma_longest(strings: Seq<Seq<char>>)
    ensures
        forall|i: int| 0 <= i < strings.len() ==> byte_len(#[trigger] strings[i]) <= longest(strings),
        strings.len() > 0 ==> exists|i: int| 0 <= i < strings.len() && byte_len(strings[i]) == longest(strings),
    decreases strings.len(),
{
    if strings.len() > 0 {
        let front = strings.drop_last();
        lemma_longest(front);
        assert forall|i: int| 0 <= i < strings.len() implies byte_len(#[trigger] strings[i]) <= longest(
            strings,
        ) by {
            if i < strings.len() - 1 {
                assert(byte_len(front[i]) <= longest(front));
            }
        }
        if byte_len(strings.last()) > longest(front) || front.len() == 0 {
            assert(byte_len(strings[strings.len() - 1]) == longest(strings));
        } else {
            let i = choose|i: int| 0 <= i < front.len() && byte_len(front[i]) == longest(front);
            assert(byte_len(strings[i]) == longest(strings));
        }
    }
}

/// No flag set, none counted.
pub proof fn lemma_count_none(flags: Seq<bool>)
    requires
        forall|i: int| 0 <= i < flags.len() ==> !flags[i],
    ensures
        count_set(flags) == 0,
    decreases flags.len(),
{
    if flags.len() > 0 {
        lemma_count_none(flags.drop_last());
    }
}

/// Strings of at most 16 bytes, one of them twice, none holding a number,
/// are typed as the enumeration of their distinct values, in the order in
/// which the values first occur.
pub proof fn lemma_enumeration(strings: Seq<Seq<char>>, pattern: Seq<char>)
    requires
        forall|i: int| 0 <= i < strings.len() ==> 1 <= byte_len(#[trigger] strings[i]) <= 16,
        distinct(strings).len() < strings.len(),
        forall|i: int| 0 <= i < strings.len() ==> searched(pattern, #[trigger] strings[i]) != Some(true),
    ensures
        classified(strings, pattern) == distinct(strings).map_values(|text: Seq<char>| string_node(text)),
{
    let uniques = distinct(strings);
    lemma_distinct(strings);
    lemma_longest(uniques);
    assert forall|j: int| 0 <= j < uniques.len() implies 1 <= byte_len(#[trigger] uniques[j]) <= 16 && searched(
        pattern,
        uniques[j],
    ) != Some(true) by {
        assert(strings.contains(uniques[j]));
        let i = strings.index_of(uniques[j]);
        assert(1 <= byte_len(strings[i]) <= 16);
    }
    lemma_count_none(numeric_flags(uniques, pattern));
    let i = choose|i: int| 0 <= i < uniques.len() && byte_len(uniques[i]) == longest(uniques);
    assert(1 <= byte_len(uniques[i]) <= 16);
}

/// No node stands twice among the nodes that a run of strings is typed as:
/// equal literals are merged.
pub proof fn lemma_classified_distinct(strings: Seq<Seq<char>>, pattern: Seq<char>)
    ensures
        classified(strings, pattern).no_duplicates(),
{
    let uniques = distinct(strings);
    let found = spans_of(uniques, pattern);
    lemma_distinct(strings);
    lemma_distinct(Seq::new(uniques.len(), |i: int| template_of(uniques[i], found[i])));
    let nodes = classified(strings, pattern);
    assert forall|i: int, j: int| 0 <= i < nodes.len() && 0 <= j < nodes.len() && i != j implies nodes[i]
        != nodes[j] by {
        match shape_of(strings.len(), uniques, count_set(numeric_flags(uniques, pattern))) {
            StringShape::Templates => {
                assert(templates(uniques, found)[i] != templates(uniques, found)[j]);
            },
            StringShape::Literals => {
                assert(uniques[i] != uniques[j]);
            },
            StringShape::Wide => {},
        }
    }
}

/// A run of strings is typed as literals or as the wide string.
pub proof fn lemma_classified_kinds(strings: Seq<Seq<char>>, pattern: Seq<char>, i: int)
    requires
        0 <= i < classified(strings, pattern).len(),
    ensures
        classified(strings, pattern)[i] is Literal || classified(strings, pattern)[i] is String,
{
}

/// The views of the nodes of `nodes`, in order.
pub open spec fn node_views(nodes: Seq<TypingNode>) -> Seq<TypingNodeView> {
    Seq::new(nodes.len(), |i: int| nodes[i]@)
}

/// The lists of spans of `lists`, in order.
pub open spec fn list_views(lists: Seq<Vec<(usize, usize)>>) -> Seq<Seq<(usize, usize)>> {
    Seq::new(lists.len(), |i: int| lists[i]@)
}

/// The length of `s` in bytes.
pub fn byte_length(s: &str) -> (length: usize)
    ensures
        length == byte_len(s@),
{
    s.as_bytes().len()
}

fn texts_in(values: &Vec<Value>) -> (strings: Vec<String>)
    ensures
        views(strings@) == texts_of(value_views(values@)),
{
    let ghost all = value_views(values@);
    let mut strings: Vec<String> = Vec::new();
    let mut i: usize = 0;
    assert(all.take(0) =~= Seq::<ValueView>::empty());
    assert(views(strings@) =~= texts_of(all.take(0)));
    while i < values.len()
        invariant
            i <= values.len(),
            all == value_views(values@),
            views(strings@) == texts_of(all.take(i as int)),
        decreases values.len() - i,
    {
        let ghost before = views(strings@);
        assert(all.take(i + 1).drop_last() == all.take(i as int));
        assert(all.take(i + 1).last() == values@[i as int]@);
        match &values[i] {
            Value::String(s) => {
                if byte_length(s.as_str()) > 0 {
                    strings.push(s.clone());
                    assert(views(strings@) =~= before.push(s@));
                }
            },
            _ => {},
        }
        i = i + 1;
    }
    assert(all.take(values.len() as int) == all);
    strings
}

fn longest_of(strings: &Vec<String>) -> (length: usize)
    ensures
        length == longest(views(strings@)),
{
    let mut length: usize = 0;
    let mut i: usize = 0;
    assert(views(strings@).take(0) =~= Seq::<Seq<char>>::empty());
    while i < strings.len()
        invariant
            i <= strings.len(),
            length == longest(views(strings@).take(i as int)),
        decreases strings.len() - i,
    {
        assert(views(strings@).take(i + 1).drop_last() == views(strings@).take(i as int));
        assert(views(strings@).take(i + 1).last() == strings@[i as int]@);
        let bytes = byte_length(strings[i].as_str());
        if bytes > length {
            length = bytes;
        }
        i = i + 1;
    }
    assert(views(strings@).take(strings.len() as int) == views(strings@));
    length
}

/// Decides how `total` strings with the distinct values `uniques`, of which
/// `numeric` hold a number, are typed.
pub fn string_shape(total: usize, uniques: &Vec<String>, numeric: usize) -> (shape: StringShape)
    ensures
        shape == shape_of(total as nat, views(uniques@), numeric as nat),
{
    let length = longest_of(uniques);
    let duplicate = total > uniques.len();
    if 1 <= length && length <= 32 && duplicate && numeric > uniques.len() / 2 {
        StringShape::Templates
    } else if 1 <= length && length <= 16 && duplicate {
        StringShape::Literals
    } else {
        StringShape::Wide
    }
}

/// The number of bytes that `c` takes in UTF-8.
pub fn width(c: char) -> (bytes: usize)
    ensures
        bytes == utf8_width(c),
{
    if c <= '\u{7F}' {
        1
    } else if c <= '\u{7FF}' {
        2
    } else if c <= '\u{FFFF}' {
        3
    } else {
        4
    }
}

/// The index of the character that stands `bytes` bytes behind the
/// character at `from`, if one stands there or the text ends there.
pub fn advance(chars: &Vec<char>, from: usize, bytes: usize) -> (to: Option<usize>)
    requires
        from <= chars.len(),
    ensures
        match chars_in(chars@.skip(from as int), bytes as int) {
            Some(n) => to == Some((from + n) as usize) && from + n <= chars.len(),
            None => to is None,
        },
{
    let mut k: usize = from;
    let mut left: usize = bytes;
    while left > 0
        invariant
            from <= k <= chars.len(),
            chars_in(chars@.skip(from as int), bytes as int) == moved(
                chars_in(chars@.skip(k as int), left as int),
                (k - from) as nat,
            ),
        decreases left,
    {
        if k == chars.len() {
            return None;
        }
        let step = width(chars[k]);
        proof {
            let rest = chars@.skip(k as int);
            assert(rest[0] == chars@[k as int]);
            assert(rest.skip(1) == chars@.skip(k + 1));
        }
        if step > left {
            assert(chars_in(chars@.skip(k + 1), left - step) is None);
            return None;
        }
        left = left - step;
        k = k + 1;
    }
    Some(k)
}

/// Appends the characters of `source` from `from` up to `to`.
fn extend_with(out: &mut Vec<char>, source: &Vec<char>, from: usize, to: usize)
    requires
        from <= to <= source.len(),
    ensures
        final(out)@ == old(out)@ + source@.subrange(from as int, to as int),
{
    let mut i: usize = from;
    assert(out@ =~= old(out)@ + source@.subrange(from as int, i as int));
    while i < to
        invariant
            from <= i <= to <= source.len(),
            out@ == old(out)@ + source@.subrange(from as int, i as int),
        decreases to - i,
    {
        out.push(source[i]);
        i = i + 1;
        assert(source@.subrange(from as int, i as int) =~= source@.subrange(from as int, i - 1).push(
            source@[i - 1],
        ));
    }
}

/// Rewrites `text`: each match gives way, at its own place, to its
/// placeholder. `found` holds the offsets in bytes of the start and the end
/// of each match, in order.
pub fn template(text: &str, found: &Vec<(usize, usize)>) -> (out: String)
    ensures
        out@ == template_of(text@, found@),
{
    let chars = chars_of(text);
    let bigint = chars_of("${bigint}");
    let number = chars_of("${number}");
    let mut out: Vec<char> = Vec::new();
    let mut cursor: usize = 0;
    let mut at: usize = 0;
    let mut j: usize = 0;
    assert(chars@.skip(0) == chars@);
    assert(found@.skip(0) == found@);
    assert(out@ + rewritten(chars@, 0, found@) == rewritten(chars@, 0, found@));
    while j < found.len()
        invariant
            j <= found.len(),
            cursor <= chars.len(),
            chars@ == text@,
            bigint@ == "${bigint}"@,
            number@ == "${number}"@,
            out@ + rewritten(chars@.skip(cursor as int), at as int, found@.skip(j as int)) == template_of(
                text@,
                found@,
            ),
        decreases found.len() - j,
    {
        let ghost rest = chars@.skip(cursor as int);
        let ghost before = out@;
        let ghost later = found@.skip(j as int);
        let start = found[j].0;
        let end = found[j].1;
        assert(later[0] == found@[j as int]);
        assert(later.skip(1) == found@.skip(j + 1));
        let first = if start >= at {
            advance(&chars, cursor, start - at)
        } else {
            None
        };
        let last = if end >= at {
            advance(&chars, cursor, end - at)
        } else {
            None
        };
        let mut placed: bool = false;
        match (first, last) {
            (Some(a), Some(b)) => {
                if a <= b {
                    extend_with(&mut out, &chars, cursor, a);
                    let ghost token = chars@.subrange(a as int, b as int);
                    if b > a && chars[b - 1] == 'n' {
                        assert(token.last() == 'n');
                        extend_chars(&mut out, &bigint);
                    } else {
                        assert(!(token.len() > 0 && token.last() == 'n'));
                        extend_chars(&mut out, &number);
                    }
                    proof {
                        assert(rest.take(a - cursor) == chars@.subrange(cursor as int, a as int));
                        assert(rest.subrange(a - cursor, b - cursor) == token);
                        assert(rest.skip(b - cursor) == chars@.skip(b as int));
                        assert(out@ + rewritten(chars@.skip(b as int), end as int, later.skip(1)) =~= before + (
                        rest.take(a - cursor) + placeholder(token) + rewritten(
                            rest.skip(b - cursor),
                            end as int,
                            later.skip(1),
                        )));
                    }
                    cursor = b;
                    at = end;
                    placed = true;
                }
            },
            _ => {},
        }
        assert(!placed ==> rewritten(rest, at as int, later) == rewritten(rest, at as int, later.skip(1)));
        j = j + 1;
    }
    assert(found@.skip(found.len() as int).len() == 0);
    extend_with(&mut out, &chars, cursor, chars.len());
    assert(chars@.subrange(cursor as int, chars.len() as int) == chars@.skip(cursor as int));
    string_of(&out)
}

/// The distinct templates of `uniques`, where `found[i]` holds the places
/// of the matches in `uniques[i]`.
pub fn templates_of(uniques: &Vec<String>, found: &Vec<Vec<(usize, usize)>>) -> (out: Vec<String>)
    requires
        found.len() == uniques.len(),
    ensures
        views(out@) == templates(views(uniques@), list_views(found@)),
{
    let mut rewritten: Vec<String> = Vec::new();
    let ghost target = Seq::new(
        uniques.len() as nat,
        |i: int| template_of(views(uniques@)[i], list_views(found@)[i]),
    );
    let mut i: usize = 0;
    while i < uniques.len()
        invariant
            i <= uniques.len(),
            found.len() == uniques.len(),
            target == Seq::new(
                uniques.len() as nat,
                |i: int| template_of(views(uniques@)[i], list_views(found@)[i]),
            ),
            views(rewritten@) == target.take(i as int),
        decreases uniques.len() - i,
    {
        let ghost before = views(rewritten@);
        let text = template(uniques[i].as_str(), &found[i]);
        assert(text@ == target[i as int]);
        rewritten.push(text);
        assert(views(rewritten@) =~= before.push(target[i as int]));
        assert(target.take(i + 1) =~= target.take(i as int).push(target[i as int]));
        i = i + 1;
    }
    assert(target.take(uniques.len() as int) == target);
    assert(views(uniques@).len() == uniques.len());
    distinct_strings(&rewritten)
}

/// The nodes that the strings of a run are typed as.
pub fn classify_strings(values: &Vec<Value>, number: &NumberPattern) -> (nodes: Vec<TypingNode>)
    ensures
        node_views(nodes@) == classified(texts_of(value_views(values@)), number.source()),
        nodes.len() > 0,
{
    let strings = texts_in(values);
    let uniques = distinct_strings(&strings);
    let ghost pattern = number.source();
    let ghost flags = numeric_flags(views(uniques@), pattern);
    let mut numeric: usize = 0;
    let mut i: usize = 0;
    assert(flags.take(0) =~= Seq::<bool>::empty());
    while i < uniques.len()
        invariant
            i <= uniques.len(),
            numeric <= i,
            pattern == number.source(),
            flags == numeric_flags(views(uniques@), pattern),
            numeric == count_set(flags.take(i as int)),
        decreases uniques.len() - i,
    {
        assert(flags.take(i + 1).drop_last() == flags.take(i as int));
        assert(flags.take(i + 1).last() == flags[i as int]);
        match is_match(number, uniques[i].as_str()) {
            Some(true) => {
                numeric = numeric + 1;
            },
            _ => {},
        }
        i = i + 1;
    }
    assert(flags.take(uniques.len() as int) == flags);
    let mut nodes: Vec<TypingNode> = Vec::new();
    match string_shape(strings.len(), &uniques, numeric) {
        StringShape::Templates => {
            let ghost target = spans_of(views(uniques@), pattern);
            let mut found: Vec<Vec<(usize, usize)>> = Vec::new();
            let mut k: usize = 0;
            while k < uniques.len()
                invariant
                    k <= uniques.len(),
                    pattern == number.source(),
                    target == spans_of(views(uniques@), pattern),
                    list_views(found@) == target.take(k as int),
                decreases uniques.len() - k,
            {
                let ghost before = list_views(found@);
                let list = find_all(number, uniques[k].as_str());
                assert(list@ == target[k as int]);
                found.push(list);
                assert(list_views(found@) =~= before.push(target[k as int]));
                assert(target.take(k + 1) =~= target.take(k as int).push(target[k as int]));
                k = k + 1;
            }
            assert(target.take(uniques.len() as int) == target);
            let texts = templates_of(&uniques, &found);
            proof {
                lemma_distinct(views(strings@));
                lemma_distinct(
                    Seq::new(views(uniques@).len(), |i: int| template_of(views(uniques@)[i], target[i])),
                );
            }
            let mut t: usize = 0;
            while t < texts.len()
                invariant
                    t <= texts.len(),
                    node_views(nodes@) == views(texts@).take(t as int).map_values(
                        |text: Seq<char>| template_node(text),
                    ),
                decreases texts.len() - t,
            {
                let ghost before = node_views(nodes@);
                let node = TypingNode::Literal(Literal::Template(texts[t].clone()));
                nodes.push(node);
                assert(node_views(nodes@) =~= before.push(template_node(texts@[t as int]@)));
                assert(views(texts@).take(t + 1).map_values(|text: Seq<char>| template_node(text))
                    =~= views(texts@).take(t as int).map_values(|text: Seq<char>| template_node(text)).push(
                    template_node(texts@[t as int]@),
                ));
                t = t + 1;
            }
            assert(views(texts@).take(texts.len() as int) == views(texts@));
        },
        StringShape::Literals => {
            proof {
                lemma_distinct(views(strings@));
            }
            let mut t: usize = 0;
            while t < uniques.len()
                invariant
                    t <= uniques.len(),
                    node_views(nodes@) == views(uniques@).take(t as int).map_values(
                        |text: Seq<char>| string_node(text),
                    ),
                decreases uniques.len() - t,
            {
                let ghost before = node_views(nodes@);
                let node = TypingNode::Literal(Literal::from_str(uniques[t].as_str()));
                nodes.push(node);
                assert(node_views(nodes@) =~= before.push(string_node(uniques@[t as int]@)));
                assert(views(uniques@).take(t + 1).map_values(|text: Seq<char>| string_node(text))
                    =~= views(uniques@).take(t as int).map_values(|text: Seq<char>| string_node(text)).push(
                    string_node(uniques@[t as int]@),
                ));
                t = t + 1;
            }
            assert(views(uniques@).take(uniques.len() as int) == views(uniques@));
        },
        StringShape::Wide => {
            nodes.push(TypingNode::String);
            assert(node_views(nodes@) =~= seq![TypingNodeView::String]);
        },
    }
    nodes
}

} // verus!
