//! Text as sequences of characters: trimming, searching, splitting, joining.

use vstd::prelude::*;
use vstd::slice::slice_subrange;

verus! {

/// `String::push` appends the character to the end of the string.
pub assume_specification[ String::push ](text: &mut String, ch: char)
    ensures
        final(text)@ == old(text)@.push(ch),
;

/// The characters with the Unicode `White_Space` property.
pub open spec fn is_space(ch: char) -> bool {
    ||| '\t' <= ch && ch <= '\r'
    ||| ch == ' '
    ||| ch == '\u{85}'
    ||| ch == '\u{a0}'
    ||| ch == '\u{1680}'
    ||| '\u{2000}' <= ch && ch <= '\u{200a}'
    ||| ch == '\u{2028}'
    ||| ch == '\u{2029}'
    ||| ch == '\u{202f}'
    ||| ch == '\u{205f}'
    ||| ch == '\u{3000}'
}

/// `text` without its leading white space.
pub open spec fn trim_start(text: Seq<char>) -> Seq<char>
    decreases text.len(),
{
    if text.len() > 0 && is_space(text[0]) {
        trim_start(text.drop_first())
    } else {
        text
    }
}

/// `text` without its trailing white space.
pub open spec fn trim_end(text: Seq<char>) -> Seq<char>
    decreases text.len(),
{
    if text.len() > 0 && is_space(text.last()) {
        trim_end(text.drop_last())
    } else {
        text
    }
}

/// `text` without white space at either end.
pub open spec fn trimmed(text: Seq<char>) -> Seq<char> {
    trim_end(trim_start(text))
}

/// `pattern` stands in `text` at index `at`.
pub open spec fn matches_at(text: Seq<char>, pattern: Seq<char>, at: int) -> bool {
    &&& 0 <= at
    &&& at + pattern.len() <= text.len()
    &&& text.subrange(at, at + pattern.len()) == pattern
}

/// `pattern` stands somewhere in `text`.
pub open spec fn contains_text(text: Seq<char>, pattern: Seq<char>) -> bool {
    exists|at: int| matches_at(text, pattern, at)
}

/// `text` begins with `pattern`.
pub open spec fn starts_with(text: Seq<char>, pattern: Seq<char>) -> bool {
    matches_at(text, pattern, 0)
}

/// `text` ends with `pattern`.
pub open spec fn ends_with(text: Seq<char>, pattern: Seq<char>) -> bool {
    matches_at(text, pattern, text.len() - pattern.len())
}

/// The first index not below `from` at which `pattern` stands in `text`.
pub open spec fn find_text_from(text: Seq<char>, pattern: Seq<char>, from: int) -> Option<int>
    decreases text.len() - from + 1,
{
    if from + pattern.len() > text.len() {
        None
    } else if matches_at(text, pattern, from) {
        Some(from)
    } else {
        find_text_from(text, pattern, from + 1)
    }
}

/// The first index at which `pattern` stands in `text`.
pub open spec fn find_text(text: Seq<char>, pattern: Seq<char>) -> Option<int> {
    find_text_from(text, pattern, 0)
}

/// The first index not below `from` at which `text` holds `ch`.
pub open spec fn find_char_from(text: Seq<char>, ch: char, from: int) -> Option<int>
    decreases text.len() - from,
{
    if from >= text.len() {
        None
    } else if text[from] == ch {
        Some(from)
    } else {
        find_char_from(text, ch, from + 1)
    }
}

/// The first index at which `text` holds `ch`.
pub open spec fn find_char(text: Seq<char>, ch: char) -> Option<int> {
    find_char_from(text, ch, 0)
}

/// The pieces of `text` between the occurrences of `separator`: one more than there are of these.
pub open spec fn split_char(text: Seq<char>, separator: char) -> Seq<Seq<char>>
    decreases text.len(),
{
    match find_char(text, separator) {
        Some(at) if 0 <= at < text.len() => seq![text.take(at)] + split_char(
            text.skip(at + 1),
            separator,
        ),
        _ => seq![text],
    }
}

/// `line` without one carriage return at its end.
pub open spec fn without_return(line: Seq<char>) -> Seq<char> {
    if line.len() > 0 && line.last() == '\r' {
        line.drop_last()
    } else {
        line
    }
}

/// The lines of `text`: each ends at a line feed, which may follow a carriage return; neither
/// belongs to the line. The last line needs no line feed.
pub open spec fn lines(text: Seq<char>) -> Seq<Seq<char>>
    decreases text.len(),
{
    if text.len() == 0 {
        Seq::empty()
    } else {
        match find_char(text, '\n') {
            Some(at) if 0 <= at < text.len() => seq![without_return(text.take(at))] + lines(
                text.skip(at + 1),
            ),
            _ => seq![text],
        }
    }
}

/// The number of characters of `text` before its first white space.
pub open spec fn word_len(text: Seq<char>) -> nat
    decreases text.len(),
{
    if text.len() == 0 || is_space(text[0]) {
        0
    } else {
        1 + word_len(text.drop_first())
    }
}

/// The maximal runs of `text` that hold no white space.
pub open spec fn words(text: Seq<char>) -> Seq<Seq<char>>
    decreases text.len(),
{
    if text.len() == 0 {
        Seq::empty()
    } else if is_space(text[0]) {
        words(text.drop_first())
    } else {
        let length = word_len(text) as int;
        if 0 < length <= text.len() {
            seq![text.take(length)] + words(text.skip(length))
        } else {
            Seq::empty()
        }
    }
}

/// `text` with each occurrence of `pattern`, found from the left, replaced by `replacement`.
pub open spec fn replace_text(
    text: Seq<char>,
    pattern: Seq<char>,
    replacement: Seq<char>,
) -> Seq<char>
    decreases text.len(),
{
    match find_text(text, pattern) {
        Some(at) if pattern.len() > 0 && 0 <= at && at + pattern.len() <= text.len() => text.take(
            at,
        ) + replacement + replace_text(text.skip(at + pattern.len()), pattern, replacement),
        _ => text,
    }
}

/// The characters of each string of a list.
pub open spec fn views(list: Seq<String>) -> Seq<Seq<char>> {
    list.map_values(|text: String| text@)
}

/// The characters of an optional text.
pub open spec fn optional(text: Option<String>) -> Option<Seq<char>> {
    match text {
        Some(inner) => Some(inner@),
        None => None,
    }
}

/// The parts of `list` with `separator` between neighbours.
pub open spec fn joined(list: Seq<Seq<char>>, separator: Seq<char>) -> Seq<char>
    decreases list.len(),
{
    if list.len() == 0 {
        Seq::empty()
    } else if list.len() == 1 {
        list[0]
    } else {
        joined(list.drop_last(), separator) + separator + list.last()
    }
}

/// The ASCII upper-case letters in lower case; every other character as it is.
pub open spec fn ascii_lower(ch: char) -> char {
    if 'A' <= ch && ch <= 'Z' {
        ((ch as u8 + 32) as u8) as char
    } else {
        ch
    }
}

/// `text` in ASCII lower case.
pub open spec fn in_lower(text: Seq<char>) -> Seq<char> {
    text.map_values(|ch: char| ascii_lower(ch))
}

/// What trimming leaves has no white space at its ends.
pub proof fn lemma_trimmed_ends(text: Seq<char>)
    ensures
        trimmed(text).len() > 0 ==> !is_space(trimmed(text)[0]) && !is_space(trimmed(text).last()),
{
    lemma_trim_start(text);
    lemma_trim_end(trim_start(text));
}

proof fn lemma_trim_start(text: Seq<char>)
    ensures
        trim_start(text).len() > 0 ==> !is_space(trim_start(text)[0]),
    decreases text.len(),
{
    if text.len() > 0 && is_space(text[0]) {
        lemma_trim_start(text.drop_first());
    }
}

proof fn lemma_trim_end(text: Seq<char>)
    ensures
        trim_end(text).len() <= text.len(),
        trim_end(text) == text.take(trim_end(text).len() as int),
        trim_end(text).len() > 0 ==> !is_space(trim_end(text).last()) && trim_end(text)[0]
            == text[0],
    decreases text.len(),
{
    if text.len() > 0 && is_space(text.last()) {
        lemma_trim_end(text.drop_last());
        let kept = trim_end(text).len() as int;
        assert(text.drop_last().take(kept) =~= text.take(kept));
    } else {
        assert(text.take(text.len() as int) =~= text);
    }
}

/// Trimming leaves a text alone that has no white space at its ends.
pub proof fn lemma_trimmed_fixed(text: Seq<char>)
    requires
        text.len() > 0 ==> !is_space(text[0]) && !is_space(text.last()),
    ensures
        trimmed(text) == text,
{
}

/// The characters of `text`.
pub fn chars_of(text: &str) -> (chars: Vec<char>)
    ensures
        chars@ == text@,
{
    let mut chars: Vec<char> = Vec::new();
    for ch in iter: text.chars()
        invariant
            chars@ == text@.take(iter.index() as int),
            iter.seq() == text@,
    {
        chars.push(ch);
    }
    chars
}

/// The string of the given characters.
pub fn string_of(chars: &[char]) -> (text: String)
    ensures
        text@ == chars@,
{
    let mut text = String::new();
    let mut i: usize = 0;
    while i < chars.len()
        invariant
            i <= chars.len(),
            text@ == chars@.take(i as int),
        decreases chars.len() - i,
    {
        text.push(chars[i]);
        i = i + 1;
    }
    text
}

/// Whether two character slices are equal.
pub fn same_chars(left: &[char], right: &[char]) -> (same: bool)
    ensures
        same == (left@ == right@),
{
    if left.len() != right.len() {
        return false;
    }
    let mut i: usize = 0;
    while i < left.len()
        invariant
            i <= left.len(),
            left.len() == right.len(),
            left@.take(i as int) == right@.take(i as int),
        decreases left.len() - i,
    {
        if left[i] != right[i] {
            return false;
        }
        assert(left@.take(i + 1) =~= left@.take(i as int).push(left@[i as int]));
        assert(right@.take(i + 1) =~= right@.take(i as int).push(right@[i as int]));
        i = i + 1;
    }
    assert(left@.take(i as int) =~= left@);
    assert(right@.take(i as int) =~= right@);
    true
}

/// Whether two texts are equal.
pub fn same_text(left: &str, right: &str) -> (same: bool)
    ensures
        same == (left@ == right@),
{
    let left_chars = chars_of(left);
    let right_chars = chars_of(right);
    same_chars(left_chars.as_slice(), right_chars.as_slice())
}

/// Whether `ch` is white space.
pub fn is_space_char(ch: char) -> (space: bool)
    ensures
        space == is_space(ch),
{
    ('\t' <= ch && ch <= '\r') || ch == ' ' || ch == '\u{85}' || ch == '\u{a0}' || ch == '\u{1680}'
        || ('\u{2000}' <= ch && ch <= '\u{200a}') || ch == '\u{2028}' || ch == '\u{2029}' || ch
        == '\u{202f}' || ch == '\u{205f}' || ch == '\u{3000}'
}

/// `text` without white space at either end.
pub fn trim(text: &[char]) -> (kept: &[char])
    ensures
        kept@ == trimmed(text@),
{
    let mut start: usize = 0;
    assert(text@.skip(0) =~= text@);
    while start < text.len() && is_space_char(text[start])
        invariant
            start <= text.len(),
            trim_start(text@) == trim_start(text@.skip(start as int)),
        decreases text.len() - start,
    {
        assert(text@.skip(start as int).drop_first() =~= text@.skip(start + 1));
        start = start + 1;
    }
    let mut end: usize = text.len();
    assert(text@.subrange(start as int, end as int) =~= text@.skip(start as int));
    while end > start && is_space_char(text[end - 1])
        invariant
            start <= end <= text.len(),
            trimmed(text@) == trim_end(text@.subrange(start as int, end as int)),
        decreases end,
    {
        assert(text@.subrange(start as int, end as int).drop_last() =~= text@.subrange(
            start as int,
            end - 1,
        ));
        end = end - 1;
    }
    slice_subrange(text, start, end)
}

/// `text` without white space at either end.
pub fn trim_text(text: &str) -> (kept: String)
    ensures
        kept@ == trimmed(text@),
{
    let chars = chars_of(text);
    string_of(trim(chars.as_slice()))
}

/// Whether `pattern` stands in `text` at index `at`.
pub fn stands_at(text: &[char], pattern: &[char], at: usize) -> (stands: bool)
    ensures
        stands == matches_at(text@, pattern@, at as int),
{
    if at > text.len() || pattern.len() > text.len() - at {
        false
    } else {
        same_chars(slice_subrange(text, at, at + pattern.len()), pattern)
    }
}

/// The first index at which `pattern` stands in `text`.
pub fn find_first(text: &[char], pattern: &[char]) -> (found: Option<usize>)
    ensures
        find_text(text@, pattern@) == (match found {
            Some(at) => Some(at as int),
            None => None,
        }),
        found matches Some(at) ==> matches_at(text@, pattern@, at as int),
        (found is Some) == contains_text(text@, pattern@),
{
    let mut at: usize = 0;
    while at <= text.len() && pattern.len() <= text.len() - at
        invariant
            at <= text.len() + 1,
            find_text(text@, pattern@) == find_text_from(text@, pattern@, at as int),
            forall|k: int| 0 <= k < at ==> !matches_at(text@, pattern@, k),
        decreases text.len() + 1 - at,
    {
        if stands_at(text, pattern, at) {
            return Some(at);
        }
        assert(at < text.len()) by {
            if at == text.len() {
                assert(text@.subrange(at as int, at as int) =~= pattern@);
            }
        }
        at = at + 1;
    }
    None
}

/// Whether `pattern` stands somewhere in `text`.
pub fn has_text(text: &str, pattern: &str) -> (found: bool)
    ensures
        found == contains_text(text@, pattern@),
{
    let chars = chars_of(text);
    let pattern_chars = chars_of(pattern);
    find_first(chars.as_slice(), pattern_chars.as_slice()).is_some()
}

/// Whether `text` begins with `pattern`.
pub fn begins_with(text: &str, pattern: &str) -> (begins: bool)
    ensures
        begins == starts_with(text@, pattern@),
{
    let chars = chars_of(text);
    let pattern_chars = chars_of(pattern);
    stands_at(chars.as_slice(), pattern_chars.as_slice(), 0)
}

/// Whether `text` ends with `pattern`.
pub fn finishes_with(text: &str, pattern: &str) -> (finishes: bool)
    ensures
        finishes == ends_with(text@, pattern@),
{
    let chars = chars_of(text);
    let pattern_chars = chars_of(pattern);
    if pattern_chars.len() > chars.len() {
        false
    } else {
        stands_at(chars.as_slice(), pattern_chars.as_slice(), chars.len() - pattern_chars.len())
    }
}

/// A found index is inside the text, holds the character, and is the first to do so.
pub proof fn lemma_find_char(text: Seq<char>, ch: char, from: int)
    requires
        0 <= from,
    ensures
        match find_char_from(text, ch, from) {
            Some(at) => from <= at < text.len() && text[at] == ch && (forall|k: int|
                from <= k < at ==> text[k] != ch),
            None => forall|k: int| from <= k < text.len() ==> text[k] != ch,
        },
    decreases text.len() - from,
{
    if from < text.len() && text[from] != ch {
        lemma_find_char(text, ch, from + 1);
    }
}

/// The first index at which `text` holds `ch`.
pub fn find_first_char(text: &[char], ch: char) -> (found: Option<usize>)
    ensures
        find_char(text@, ch) == (match found {
            Some(at) => Some(at as int),
            None => None,
        }),
        found matches Some(at) ==> at < text.len() && text@[at as int] == ch,
        (found is Some) == text@.contains(ch),
{
    let mut at: usize = 0;
    while at < text.len()
        invariant
            at <= text.len(),
            find_char(text@, ch) == find_char_from(text@, ch, at as int),
            forall|k: int| 0 <= k < at ==> text@[k] != ch,
        decreases text.len() - at,
    {
        if text[at] == ch {
            return Some(at);
        }
        at = at + 1;
    }
    None
}

/// The pieces of `text` between the occurrences of `separator`.
pub fn split_on(text: &[char], separator: char) -> (pieces: Vec<String>)
    ensures
        views(pieces@) == split_char(text@, separator),
{
    let mut pieces: Vec<String> = Vec::new();
    let mut rest: &[char] = text;
    assert(views(pieces@) + split_char(rest@, separator) =~= split_char(text@, separator));
    loop
        invariant
            views(pieces@) + split_char(rest@, separator) == split_char(text@, separator),
        decreases rest.len(),
    {
        match find_first_char(rest, separator) {
            Some(at) => {
                let ghost before = views(pieces@);
                let piece = string_of(slice_subrange(rest, 0, at));
                let tail = slice_subrange(rest, at + 1, rest.len());
                assert(rest@.subrange(0, at as int) =~= rest@.take(at as int));
                assert(rest@.subrange(at + 1, rest@.len() as int) =~= rest@.skip(at + 1));
                pieces.push(piece);
                assert(views(pieces@) =~= before.push(rest@.take(at as int)));
                assert(views(pieces@) + split_char(tail@, separator) =~= before + split_char(
                    rest@,
                    separator,
                ));
                rest = tail;
            },
            None => {
                let ghost before = views(pieces@);
                pieces.push(string_of(rest));
                assert(views(pieces@) =~= before + seq![rest@]);
                return pieces;
            },
        }
    }
}

/// The lines of `text`.
pub fn text_lines(text: &str) -> (list: Vec<String>)
    ensures
        views(list@) == lines(text@),
{
    let chars = chars_of(text);
    let mut list: Vec<String> = Vec::new();
    let mut rest: &[char] = chars.as_slice();
    assert(views(list@) + lines(rest@) =~= lines(text@));
    while rest.len() > 0
        invariant
            views(list@) + lines(rest@) == lines(text@),
        decreases rest.len(),
    {
        let ghost before = views(list@);
        match find_first_char(rest, '\n') {
            Some(at) => {
                let kept: usize = if at > 0 && rest[at - 1] == '\r' {
                    at - 1
                } else {
                    at
                };
                let line = string_of(slice_subrange(rest, 0, kept));
                let tail = slice_subrange(rest, at + 1, rest.len());
                assert(rest@.subrange(0, kept as int) =~= without_return(rest@.take(at as int)));
                assert(rest@.subrange(at + 1, rest@.len() as int) =~= rest@.skip(at + 1));
                list.push(line);
                assert(views(list@) =~= before.push(without_return(rest@.take(at as int))));
                assert(views(list@) + lines(tail@) =~= before + lines(rest@));
                rest = tail;
            },
            None => {
                list.push(string_of(rest));
                assert(views(list@) =~= before + seq![rest@]);
                rest = slice_subrange(rest, rest.len(), rest.len());
                assert(views(list@) + lines(rest@) =~= views(list@));
            },
        }
    }
    assert(views(list@) + lines(rest@) =~= views(list@));
    list
}

/// The number of characters of `text` before its first white space.
fn leading_word(text: &[char]) -> (length: usize)
    ensures
        length == word_len(text@),
        length <= text.len(),
{
    let mut length: usize = 0;
    assert(text@.skip(0) =~= text@);
    while length < text.len() && !is_space_char(text[length])
        invariant
            length <= text.len(),
            word_len(text@) == length + word_len(text@.skip(length as int)),
        decreases text.len() - length,
    {
        assert(text@.skip(length as int).drop_first() =~= text@.skip(length + 1));
        length = length + 1;
    }
    length
}

/// The maximal runs of `text` that hold no white space.
pub fn text_words(text: &[char]) -> (list: Vec<String>)
    ensures
        views(list@) == words(text@),
{
    let mut list: Vec<String> = Vec::new();
    let mut rest: &[char] = text;
    assert(views(list@) + words(rest@) =~= words(text@));
    while rest.len() > 0
        invariant
            views(list@) + words(rest@) == words(text@),
        decreases rest.len(),
    {
        if is_space_char(rest[0]) {
            assert(rest@.drop_first() =~= rest@.subrange(1, rest@.len() as int));
            rest = slice_subrange(rest, 1, rest.len());
        } else {
            let ghost before = views(list@);
            let length = leading_word(rest);
            let word = string_of(slice_subrange(rest, 0, length));
            let tail = slice_subrange(rest, length, rest.len());
            assert(rest@.subrange(0, length as int) =~= rest@.take(length as int));
            assert(rest@.subrange(length as int, rest@.len() as int) =~= rest@.skip(length as int));
            list.push(word);
            assert(views(list@) =~= before.push(rest@.take(length as int)));
            assert(views(list@) + words(tail@) =~= before + words(rest@));
            rest = tail;
        }
    }
    assert(views(list@) + words(rest@) =~= views(list@));
    list
}

/// `text` with each occurrence of `pattern`, found from the left, replaced by `replacement`.
pub fn replace_all(text: &str, pattern: &str, replacement: &str) -> (replaced: String)
    requires
        pattern@.len() > 0,
    ensures
        replaced@ == replace_text(text@, pattern@, replacement@),
{
    let chars = chars_of(text);
    let pattern_chars = chars_of(pattern);
    let mut replaced = String::new();
    let mut rest: &[char] = chars.as_slice();
    assert(replaced@ + replace_text(rest@, pattern@, replacement@) =~= replace_text(
        text@,
        pattern@,
        replacement@,
    ));
    loop
        invariant
            pattern@.len() > 0,
            pattern_chars@ == pattern@,
            replaced@ + replace_text(rest@, pattern@, replacement@) == replace_text(
                text@,
                pattern@,
                replacement@,
            ),
        decreases rest.len(),
    {
        match find_first(rest, pattern_chars.as_slice()) {
            Some(at) => {
                let ghost before = replaced@;
                let kept = string_of(slice_subrange(rest, 0, at));
                let tail = slice_subrange(rest, at + pattern_chars.len(), rest.len());
                assert(rest@.subrange(0, at as int) =~= rest@.take(at as int));
                assert(rest@.subrange(at + pattern@.len(), rest@.len() as int) =~= rest@.skip(
                    at + pattern@.len(),
                ));
                replaced.append(kept.as_str());
                replaced.append(replacement);
                assert(replaced@ + replace_text(tail@, pattern@, replacement@) =~= before
                    + replace_text(rest@, pattern@, replacement@));
                rest = tail;
            },
            None => {
                let last = string_of(rest);
                replaced.append(last.as_str());
                return replaced;
            },
        }
    }
}

/// The texts of `list` with `separator` between neighbours.
pub fn join_texts(list: &Vec<String>, separator: &str) -> (text: String)
    ensures
        text@ == joined(views(list@), separator@),
{
    let mut text = String::new();
    let ghost all = views(list@);
    let mut i: usize = 0;
    while i < list.len()
        invariant
            i <= list.len(),
            all == views(list@),
            text@ == joined(all.take(i as int), separator@),
        decreases list.len() - i,
    {
        if i > 0 {
            text.append(separator);
        }
        text.append(list[i].as_str());
        assert(all.take(i + 1).drop_last() =~= all.take(i as int));
        assert(all[i as int] == list[i as int]@);
        if i == 0 {
            assert(text@ =~= all[0]);
        }
        i = i + 1;
    }
    assert(all.take(i as int) =~= all);
    text
}

/// Appends `text` to a list.
pub fn push_text(list: &mut Vec<String>, text: &str)
    ensures
        views(final(list)@) == views(old(list)@).push(text@),
{
    list.push(text.to_owned());
    assert(views(list@) =~= views(old(list)@).push(text@));
}

/// Appends one list to another.
pub fn push_texts(list: &mut Vec<String>, more: &Vec<String>)
    ensures
        views(final(list)@) == views(old(list)@) + views(more@),
{
    let ghost added = views(more@);
    let mut i: usize = 0;
    assert(views(list@) =~= views(old(list)@) + added.take(0));
    while i < more.len()
        invariant
            i <= more.len(),
            added == views(more@),
            views(list@) == views(old(list)@) + added.take(i as int),
        decreases more.len() - i,
    {
        push_text(list, more[i].as_str());
        i = i + 1;
        assert(views(list@) =~= views(old(list)@) + added.take(i as int));
    }
    assert(added.take(i as int) =~= added);
}

/// `first` with `second` behind it.
pub fn two_texts(first: &str, second: &str) -> (text: String)
    ensures
        text@ == first@ + second@,
{
    let mut text = first.to_owned();
    text.append(second);
    text
}

/// `ch` with an ASCII upper-case letter in lower case.
pub fn lower_ascii(ch: char) -> (lower: char)
    ensures
        lower == ascii_lower(ch),
{
    if 'A' <= ch && ch <= 'Z' {
        (ch as u8 + 32) as char
    } else {
        ch
    }
}

/// A text stands in whatever is made by writing something before it and something behind it.
pub proof fn lemma_stands_inside(before: Seq<char>, text: Seq<char>, behind: Seq<char>)
    ensures
        contains_text(before + text + behind, text),
        contains_text(before + text, text),
{
    let whole = before + text + behind;
    let at = before.len() as int;
    assert(whole.subrange(at, at + text.len()) =~= text);
    assert(matches_at(whole, text, at));
    assert((before + text).subrange(at, at + text.len()) =~= text);
    assert(matches_at(before + text, text, at));
}

/// Trimming takes white space off both ends and nothing else: what is left has none at its ends,
/// and white space round a text does not matter.
pub proof fn trimming_takes_off_white_space(before: Seq<char>, text: Seq<char>, behind: Seq<char>)
    requires
        forall|i: int| 0 <= i < before.len() ==> is_space(#[trigger] before[i]),
        forall|i: int| 0 <= i < behind.len() ==> is_space(#[trigger] behind[i]),
        text.len() > 0 ==> !is_space(text[0]) && !is_space(text.last()),
    ensures
        trimmed(before + text + behind) == text,
{
    lemma_trim_before(before, text + behind);
    assert(before + text + behind =~= before + (text + behind));
    if text.len() > 0 {
        assert((text + behind)[0] == text[0]);
        assert(trim_start(text + behind) == text + behind);
        lemma_trim_behind(text, behind);
    } else {
        assert(text + behind =~= behind);
        lemma_trim_before(behind, Seq::empty());
        assert(behind + Seq::<char>::empty() =~= behind);
        assert(trim_start(Seq::<char>::empty()) =~= Seq::empty());
        assert(trim_end(Seq::<char>::empty()) =~= Seq::empty());
        assert(text =~= Seq::empty());
    }
}

proof fn lemma_trim_before(before: Seq<char>, text: Seq<char>)
    requires
        forall|i: int| 0 <= i < before.len() ==> is_space(#[trigger] before[i]),
    ensures
        trim_start(before + text) == trim_start(text),
    decreases before.len(),
{
    if before.len() == 0 {
        assert(before + text =~= text);
    } else {
        assert((before + text)[0] == before[0]);
        assert((before + text).drop_first() =~= before.drop_first() + text);
        lemma_trim_before(before.drop_first(), text);
    }
}

proof fn lemma_trim_behind(text: Seq<char>, behind: Seq<char>)
    requires
        text.len() > 0,
        !is_space(text.last()),
        forall|i: int| 0 <= i < behind.len() ==> is_space(#[trigger] behind[i]),
    ensures
        trim_end(text + behind) == text,
    decreases behind.len(),
{
    if behind.len() == 0 {
        assert(text + behind =~= text);
    } else {
        assert((text + behind).last() == behind[behind.len() - 1]);
        assert((text + behind).drop_last() =~= text + behind.drop_last());
        lemma_trim_behind(text, behind.drop_last());
    }
}

/// White space is what Unicode says it is: among the ASCII characters the space and those from
/// tab to carriage return, and no letter, digit or mark.
pub proof fn white_space_in_ascii(ch: char)
    requires
        ch as u32 <= 0x7f,
    ensures
        is_space(ch) <==> ch == ' ' || (9 <= ch as u32 && ch as u32 <= 13),
{
}

/// A text splits at a separator into what stands before the first one and the pieces of what
/// stands behind it; without a separator it is one piece.
pub proof fn splitting_cuts_at_the_first_separator(
    piece: Seq<char>,
    rest: Seq<char>,
    separator: char,
)
    requires
        !piece.contains(separator),
    ensures
        split_char(piece, separator) == seq![piece],
        split_char(piece + seq![separator] + rest, separator) == seq![piece] + split_char(
            rest,
            separator,
        ),
{
    let text = piece + seq![separator] + rest;
    let at = piece.len() as int;
    lemma_find_char(piece, separator, 0);
    if let Some(k) = find_char(piece, separator) {
        assert(piece.contains(piece[k]));
    }
    lemma_find_char(text, separator, 0);
    assert forall|k: int| 0 <= k < at implies text[k] != separator by {
        assert(text[k] == piece[k]);
        assert(piece.contains(piece[k]));
    }
    assert(text[at] == separator);
    assert(find_char(text, separator) == Some(at));
    assert(text.take(at) =~= piece);
    assert(text.skip(at + 1) =~= rest);
}

/// A line ends at its line feed, with or without a carriage return before it; the lines behind it
/// are those of the rest. A text without a line feed is one line, unless it is empty.
pub proof fn lines_end_at_line_feeds(line: Seq<char>, rest: Seq<char>)
    requires
        !line.contains('\n'),
    ensures
        lines(line + seq!['\r', '\n'] + rest) == seq![line] + lines(rest),
        line.len() == 0 || line.last() != '\r' ==> lines(line + seq!['\n'] + rest) == seq![line]
            + lines(rest),
        line.len() > 0 ==> lines(line) == seq![line],
        lines(Seq::empty()).len() == 0,
{
    lemma_line_feed_at(line, rest);
    lemma_line_feed_at(line.push('\r'), rest);
    assert(line.push('\r') + seq!['\n'] + rest =~= line + seq!['\r', '\n'] + rest);
    assert(line.push('\r').drop_last() =~= line);
    lemma_find_char(line, '\n', 0);
    if let Some(k) = find_char(line, '\n') {
        assert(line.contains(line[k]));
    }
}

proof fn lemma_line_feed_at(line: Seq<char>, rest: Seq<char>)
    requires
        !line.contains('\n') || (line.len() > 0 && line.last() == '\r'
            && !line.drop_last().contains('\n')),
    ensures
        lines(line + seq!['\n'] + rest) == seq![without_return(line)] + lines(rest),
{
    let text = line + seq!['\n'] + rest;
    let at = line.len() as int;
    lemma_find_char(text, '\n', 0);
    assert forall|k: int| 0 <= k < at implies text[k] != '\n' by {
        assert(text[k] == line[k]);
        if line.contains('\n') {
            if k < at - 1 {
                assert(line.drop_last()[k] == line[k]);
                assert(line.drop_last().contains(line.drop_last()[k]));
            }
        } else {
            assert(line.contains(line[k]));
        }
    }
    assert(text[at] == '\n');
    assert(find_char(text, '\n') == Some(at));
    assert(text.take(at) =~= line);
    assert(text.skip(at + 1) =~= rest);
}

/// A word ends at the first white space behind it, and white space before a word does not matter.
pub proof fn words_stand_between_white_space(word: Seq<char>, space: char, rest: Seq<char>)
    requires
        word.len() > 0,
        forall|i: int| 0 <= i < word.len() ==> !is_space(#[trigger] word[i]),
        is_space(space),
    ensures
        words(word + seq![space] + rest) == seq![word] + words(rest),
        words(word) == seq![word],
        words(seq![space] + rest) == words(rest),
        words(Seq::empty()).len() == 0,
{
    let text = word + seq![space] + rest;
    lemma_word_runs(word, seq![space] + rest);
    assert(text =~= word + (seq![space] + rest));
    assert(text[0] == word[0]);
    assert(text.take(word.len() as int) =~= word);
    assert(text.skip(word.len() as int) =~= seq![space] + rest);
    assert((seq![space] + rest).drop_first() =~= rest);
    assert((seq![space] + rest)[0] == space);
    assert(words(seq![space] + rest) == words(rest));
    assert(words(text) == seq![word] + words(seq![space] + rest));
    lemma_word_runs(word, Seq::empty());
    assert(word + Seq::<char>::empty() =~= word);
    assert(word.take(word.len() as int) =~= word);
    assert(word.skip(word.len() as int) =~= Seq::empty());
    assert(words(word.skip(word.len() as int)) =~= Seq::empty());
    assert(words(word) =~= seq![word]);
}

proof fn lemma_word_runs(word: Seq<char>, rest: Seq<char>)
    requires
        forall|i: int| 0 <= i < word.len() ==> !is_space(#[trigger] word[i]),
        rest.len() > 0 ==> is_space(rest[0]),
    ensures
        word_len(word + rest) == word.len(),
    decreases word.len(),
{
    if word.len() == 0 {
        assert(word + rest =~= rest);
    } else {
        assert((word + rest)[0] == word[0]);
        assert((word + rest).drop_first() =~= word.drop_first() + rest);
        lemma_word_runs(word.drop_first(), rest);
    }
}

/// Joining two lists that are not empty puts the separator between them; a single text is joined
/// to itself, and nothing to nothing.
pub proof fn joining_puts_separators_between(
    left: Seq<Seq<char>>,
    right: Seq<Seq<char>>,
    separator: Seq<char>,
)
    ensures
        left.len() > 0 && right.len() > 0 ==> joined(left + right, separator) == joined(
            left,
            separator,
        ) + separator + joined(right, separator),
        left.len() == 1 ==> joined(left, separator) == left[0],
        left.len() == 0 ==> joined(left, separator).len() == 0,
    decreases right.len(),
{
    if left.len() > 0 && right.len() > 0 {
        assert((left + right).drop_last() =~= left + right.drop_last());
        assert((left + right).last() == right.last());
        if right.len() == 1 {
            assert(left + right.drop_last() =~= left);
        } else {
            joining_puts_separators_between(left, right.drop_last(), separator);
            assert(joined(left + right, separator) =~= joined(left, separator) + separator + joined(
                right,
                separator,
            ));
        }
    }
}

/// Every place at which a pattern is found holds it, and no earlier one does; where none is found,
/// it stands nowhere.
pub proof fn a_found_text_is_the_first(text: Seq<char>, pattern: Seq<char>)
    ensures
        match find_text(text, pattern) {
            Some(at) => matches_at(text, pattern, at) && forall|k: int|
                k < at ==> !#[trigger] matches_at(text, pattern, k),
            None => forall|k: int| !#[trigger] matches_at(text, pattern, k),
        },
        find_text(text, pattern) is Some <==> contains_text(text, pattern),
{
    lemma_found_from(text, pattern, 0);
}

proof fn lemma_found_from(text: Seq<char>, pattern: Seq<char>, from: int)
    requires
        0 <= from,
    ensures
        match find_text_from(text, pattern, from) {
            Some(at) => from <= at && matches_at(text, pattern, at) && forall|k: int|
                from <= k < at ==> !#[trigger] matches_at(text, pattern, k),
            None => forall|k: int| from <= k ==> !#[trigger] matches_at(text, pattern, k),
        },
    decreases text.len() - from + 1,
{
    if from + pattern.len() <= text.len() && !matches_at(text, pattern, from) {
        lemma_found_from(text, pattern, from + 1);
    }
}

/// Replacing leaves a text alone in which the pattern does not stand, puts the replacement in its
/// first place otherwise, and goes on behind it.
pub proof fn replacing_goes_on_behind_the_first_place(
    text: Seq<char>,
    at: int,
    pattern: Seq<char>,
    replacement: Seq<char>,
)
    requires
        pattern.len() > 0,
    ensures
        !contains_text(text, pattern) ==> replace_text(text, pattern, replacement) == text,
        matches_at(text, pattern, at) && (forall|k: int|
            k < at ==> !#[trigger] matches_at(text, pattern, k)) ==> replace_text(
            text,
            pattern,
            replacement,
        ) == text.take(at) + replacement + replace_text(
            text.skip(at + pattern.len()),
            pattern,
            replacement,
        ),
{
    a_found_text_is_the_first(text, pattern);
    if matches_at(text, pattern, at) && (forall|k: int|
        k < at ==> !#[trigger] matches_at(text, pattern, k)) {
        let found = find_text(text, pattern)->0;
        if found > at {
            assert(!matches_at(text, pattern, at));
        }
    }
}

/// What a text does not hold, it does not hold when it is trimmed.
pub proof fn lemma_trimmed_keeps_out(text: Seq<char>, ch: char)
    requires
        !text.contains(ch),
    ensures
        !trimmed(text).contains(ch),
{
    lemma_trim_start_keeps_out(text, ch);
    let start = trim_start(text);
    lemma_trim_end(start);
    if trimmed(text).contains(ch) {
        let k = trimmed(text).index_of(ch);
        assert(start[k] == ch);
    }
}

proof fn lemma_trim_start_keeps_out(text: Seq<char>, ch: char)
    requires
        !text.contains(ch),
    ensures
        !trim_start(text).contains(ch),
    decreases text.len(),
{
    if text.len() > 0 && is_space(text[0]) {
        let rest = text.drop_first();
        if rest.contains(ch) {
            let k = rest.index_of(ch);
            assert(text[k + 1] == ch);
        }
        lemma_trim_start_keeps_out(rest, ch);
    }
}

/// The words of a text with one more word behind it are those of the text and then that word.
pub proof fn a_word_behind_is_the_last(text: Seq<char>, space: char, word: Seq<char>)
    requires
        word.len() > 0,
        forall|i: int| 0 <= i < word.len() ==> !is_space(#[trigger] word[i]),
        is_space(space),
    ensures
        words(text + seq![space] + word) == words(text) + seq![word],
    decreases text.len(),
{
    let whole = text + seq![space] + word;
    words_stand_between_white_space(word, space, Seq::empty());
    if text.len() == 0 {
        words_stand_between_white_space(word, space, word);
        assert(whole =~= seq![space] + word);
        assert(words(text) =~= Seq::empty());
        assert(words(whole) =~= words(text) + seq![word]);
    } else if is_space(text[0]) {
        assert(whole[0] == text[0]);
        assert(whole.drop_first() =~= text.drop_first() + seq![space] + word);
        a_word_behind_is_the_last(text.drop_first(), space, word);
    } else {
        let length = word_len(text) as int;
        lemma_word_len_of(text, seq![space] + word);
        assert(whole =~= text + (seq![space] + word));
        assert(whole[0] == text[0]);
        assert(word_len(whole) == length);
        assert(0 < length <= text.len());
        assert(whole.take(length) =~= text.take(length));
        assert(whole.skip(length) =~= text.skip(length) + seq![space] + word);
        a_word_behind_is_the_last(text.skip(length), space, word);
        assert(words(whole) =~= words(text) + seq![word]);
    }
}

proof fn lemma_word_len_of(text: Seq<char>, rest: Seq<char>)
    requires
        rest.len() > 0,
        is_space(rest[0]),
    ensures
        word_len(text + rest) == word_len(text),
        word_len(text) <= text.len(),
        text.len() > 0 && !is_space(text[0]) ==> word_len(text) > 0,
    decreases text.len(),
{
    if text.len() == 0 {
        assert(text + rest =~= rest);
    } else {
        assert((text + rest)[0] == text[0]);
        assert((text + rest).drop_first() =~= text.drop_first() + rest);
        lemma_word_len_of(text.drop_first(), rest);
    }
}

/// Two texts written behind another one by one.
pub proof fn lemma_last_two(front: Seq<char>, one: Seq<char>, two: Seq<char>)
    ensures
        front + one + two == front + (one + two),
{
    assert(front + one + two =~= front + (one + two));
}

/// Three texts written behind another one by one.
pub proof fn lemma_last_three(front: Seq<char>, one: Seq<char>, two: Seq<char>, three: Seq<char>)
    ensures
        front + one + two + three == front + (one + two + three),
{
    assert(front + one + two + three =~= front + (one + two + three));
}

/// A text between its marks, with what follows it, regrouped.
pub proof fn lemma_item(
    front: Seq<char>,
    mark: Seq<char>,
    text: Seq<char>,
    close: Seq<char>,
    sep: Seq<char>,
    next: Seq<char>,
)
    ensures
        front + mark + text + (close + sep + next) == front + (mark + text + close) + sep + next,
{
    assert(front + mark + text + (close + sep + next) =~= front + (mark + text + close) + sep
        + next);
}

/// What stands in a text still does when something is written behind it.
pub proof fn lemma_still_stands(text: Seq<char>, more: Seq<char>, part: Seq<char>)
    requires
        contains_text(text, part),
    ensures
        contains_text(text + more, part),
{
    let at = choose|at: int| matches_at(text, part, at);
    assert((text + more).subrange(at, at + part.len()) =~= text.subrange(at, at + part.len()));
    assert(matches_at(text + more, part, at));
}

/// The first `count` of some parts, one after the other.
pub open spec fn written(parts: Seq<Seq<char>>, count: nat) -> Seq<char>
    decreases count,
{
    if count == 0 {
        Seq::empty()
    } else {
        written(parts, (count - 1) as nat) + parts[count - 1]
    }
}

/// Three parts that follow each other stand in what is made of all.
pub proof fn lemma_parts_stand(parts: Seq<Seq<char>>, at: int, count: nat)
    requires
        0 <= at,
        at + 3 <= count,
    ensures
        contains_text(
            written(parts, count),
            parts[at] + parts[at + 1] + parts[at + 2],
        ),
    decreases count,
{
    let three = parts[at] + parts[at + 1] + parts[at + 2];
    if count == at + 3 {
        reveal_with_fuel(written, 4);
        lemma_last_three(written(parts, at as nat), parts[at], parts[at + 1], parts[at + 2]);
        lemma_stands_inside(written(parts, at as nat), three, Seq::empty());
        assert(written(parts, count) == written(parts, at as nat) + parts[at] + parts[at + 1]
            + parts[at + 2]);
    } else {
        lemma_parts_stand(parts, at, (count - 1) as nat);
        lemma_still_stands(written(parts, (count - 1) as nat), parts[count - 1], three);
    }
}

/// What is made of all parts starts with what is made of the first ones.
pub proof fn lemma_written_starts(parts: Seq<Seq<char>>, some: nat, count: nat)
    requires
        some <= count,
    ensures
        starts_with(written(parts, count), written(parts, some)),
    decreases count,
{
    let start = written(parts, some);
    if some == count {
        assert(start.subrange(0, start.len() as int) =~= start);
    } else {
        lemma_written_starts(parts, some, (count - 1) as nat);
        let shorter = written(parts, (count - 1) as nat);
        assert((shorter + parts[count - 1]).subrange(0, start.len() as int) =~= shorter.subrange(
            0,
            start.len() as int,
        ));
    }
}

/// A pattern stands in a text where the text has its characters, one by one; a text begins with it
/// where that is so from the first character on, and ends with it where it is so up to the last.
pub proof fn a_pattern_stands_where_its_characters_do(
    text: Seq<char>,
    pattern: Seq<char>,
    at: int,
)
    ensures
        matches_at(text, pattern, at) <==> 0 <= at && at + pattern.len() <= text.len() && forall|
            k: int,
        |
            0 <= k < pattern.len() ==> text[at + k] == #[trigger] pattern[k],
        starts_with(text, pattern) <==> pattern.is_prefix_of(text),
        ends_with(text, pattern) <==> pattern.is_suffix_of(text),
        matches_at(text, pattern, at) ==> contains_text(text, pattern),
{
    if 0 <= at && at + pattern.len() <= text.len() {
        let found = text.subrange(at, at + pattern.len());
        assert(forall|k: int| 0 <= k < pattern.len() ==> found[k] == text[at + k]);
        if forall|k: int| 0 <= k < pattern.len() ==> text[at + k] == #[trigger] pattern[k] {
            assert(found =~= pattern);
        }
    }
}

/// The letters from `A` to `Z` are put into lower case, and nothing else changes.
pub proof fn only_letters_have_a_lower_case(text: Seq<char>, i: int)
    requires
        0 <= i < text.len(),
    ensures
        in_lower(text).len() == text.len(),
        'A' <= text[i] <= 'Z' ==> in_lower(text)[i] as u32 == text[i] as u32 + 32,
        !('A' <= text[i] <= 'Z') ==> in_lower(text)[i] == text[i],
{
}

} // verus!
