//! What a user types: a video URL, or a bare video id.

use crate::text::{chars_of, contains_text, find_first, matches_at, string_of, trim, trimmed};
use crate::text::{is_space, lemma_trimmed_ends, lemma_trimmed_fixed, trimming_takes_off_white_space};
use vstd::prelude::*;

verus! {

/// The characters that a video id is made of.
pub open spec fn is_id_char(ch: char) -> bool {
    ||| '0' <= ch && ch <= '9'
    ||| 'A' <= ch && ch <= 'Z'
    ||| 'a' <= ch && ch <= 'z'
    ||| ch == '-'
    ||| ch == '_'
}

/// Eleven characters of a video id and nothing else.
pub open spec fn is_video_id(text: Seq<char>) -> bool {
    text.len() == 11 && forall|i: int| 0 <= i < text.len() ==> is_id_char(#[trigger] text[i])
}

/// The watch URL of a video id.
pub open spec fn watch_url(id: Seq<char>) -> Seq<char> {
    "https://www.youtube.com/watch?v="@ + id
}

/// What is handed to the download tool for an input: the input without the white space round it,
/// made a watch URL where it is a bare video id.
pub open spec fn normalised(input: Seq<char>) -> Seq<char> {
    let text = trimmed(input);
    if !contains_text(text, "://"@) && is_video_id(text) {
        watch_url(text)
    } else {
        text
    }
}

/// Whether `ch` may stand in a video id.
pub fn is_video_id_char(ch: char) -> (allowed: bool)
    ensures
        allowed == is_id_char(ch),
{
    ('0' <= ch && ch <= '9') || ('A' <= ch && ch <= 'Z') || ('a' <= ch && ch <= 'z') || ch == '-'
        || ch == '_'
}

/// Turns an input into what the download tool takes.
pub fn normalise_input(input: &str) -> (url: String)
    ensures
        url@ == normalised(input@),
{
    let chars = chars_of(input);
    let text = trim(chars.as_slice());
    let mark = chars_of("://");
    let is_url = find_first(text, mark.as_slice()).is_some();
    if is_url || text.len() != 11 {
        return string_of(text);
    }
    let mut i: usize = 0;
    while i < text.len()
        invariant
            i <= text.len(),
            text@ == trimmed(input@),
            forall|k: int| 0 <= k < i ==> is_id_char(#[trigger] text@[k]),
        decreases text.len() - i,
    {
        if !is_video_id_char(text[i]) {
            assert(!is_id_char(text@[i as int]));
            return string_of(text);
        }
        i = i + 1;
    }
    let id = string_of(text);
    let mut url = "https://www.youtube.com/watch?v=".to_owned();
    url.append(id.as_str());
    url
}

/// Normalising an input once more changes nothing.
pub proof fn normalised_is_stable(input: Seq<char>)
    ensures
        normalised(normalised(input)) == normalised(input),
{
    let text = trimmed(input);
    lemma_trimmed_ends(input);
    if !contains_text(text, "://"@) && is_video_id(text) {
        let url = watch_url(text);
        reveal_strlit("https://www.youtube.com/watch?v=");
        reveal_strlit("://");
        assert(url.subrange(5, 8) =~= "://"@);
        assert(matches_at(url, "://"@, 5));
        assert(is_id_char(text[10]));
        assert(url.last() == text[10]);
        lemma_trimmed_fixed(url);
    } else {
        lemma_trimmed_fixed(text);
    }
}

/// Eleven letters, digits, hyphens or underscores, whatever white space is round them, are taken
/// for the id of a video, and lead to its watch page. Anything else is taken as it stands, without
/// the white space round it.
pub proof fn an_id_leads_to_its_watch_page(before: Seq<char>, text: Seq<char>, behind: Seq<char>)
    requires
        forall|i: int| 0 <= i < before.len() ==> is_space(#[trigger] before[i]),
        forall|i: int| 0 <= i < behind.len() ==> is_space(#[trigger] behind[i]),
        text.len() > 0 ==> !is_space(text[0]) && !is_space(text.last()),
    ensures
        ({
            let is_id = text.len() == 11 && forall|i: int|
                0 <= i < text.len() ==> {
                    ||| '0' <= #[trigger] text[i] <= '9'
                    ||| 'A' <= text[i] <= 'Z'
                    ||| 'a' <= text[i] <= 'z'
                    ||| text[i] == '-'
                    ||| text[i] == '_'
                };
            normalised(before + text + behind) == (if is_id {
                "https://www.youtube.com/watch?v="@ + text
            } else {
                text
            })
        }),
{
    trimming_takes_off_white_space(before, text, behind);
    let input = before + text + behind;
    assert(trimmed(input) == text);
    let is_id = text.len() == 11 && forall|i: int|
        0 <= i < text.len() ==> {
            ||| '0' <= #[trigger] text[i] <= '9'
            ||| 'A' <= text[i] <= 'Z'
            ||| 'a' <= text[i] <= 'z'
            ||| text[i] == '-'
            ||| text[i] == '_'
        };
    assert(is_id == is_video_id(text));
    if is_id && contains_text(text, "://"@) {
        reveal_strlit("://");
        let at = choose|at: int| matches_at(text, "://"@, at);
        assert(text.subrange(at, at + 3)[0] == text[at]);
        assert(text[at] == ':');
    }
}

} // verus!
