//! Texts as they stand in a page.

use crate::text::{chars_of, starts_with};
use vstd::prelude::*;

verus! {

/// How a character is written in a page: the five that mean something there by name.
pub open spec fn escape_of(ch: char) -> Seq<char> {
    if ch == '&' {
        "&amp;"@
    } else if ch == '<' {
        "&lt;"@
    } else if ch == '>' {
        "&gt;"@
    } else if ch == '"' {
        "&quot;"@
    } else if ch == '\'' {
        "&#39;"@
    } else {
        seq![ch]
    }
}

/// `text` as it is written in a page.
pub open spec fn escaped(text: Seq<char>) -> Seq<char>
    decreases text.len(),
{
    if text.len() == 0 {
        Seq::empty()
    } else {
        escape_of(text[0]) + escaped(text.drop_first())
    }
}

/// `s` as it is written in a page.
pub fn html_escape(s: &str) -> (text: String)
    ensures
        text@ == escaped(s@),
{
    let chars = chars_of(s);
    let mut text = String::new();
    let mut i: usize = 0;
    assert(s@.skip(0) =~= s@);
    assert(text@ + escaped(s@.skip(0)) =~= escaped(s@));
    while i < chars.len()
        invariant
            i <= chars.len(),
            chars@ == s@,
            text@ + escaped(s@.skip(i as int)) == escaped(s@),
        decreases chars.len() - i,
    {
        let ghost before = text@;
        let ghost rest = s@.skip(i as int);
        let ch = chars[i];
        if ch == '&' {
            text.append("&amp;");
        } else if ch == '<' {
            text.append("&lt;");
        } else if ch == '>' {
            text.append("&gt;");
        } else if ch == '"' {
            text.append("&quot;");
        } else if ch == '\'' {
            text.append("&#39;");
        } else {
            text.push(ch);
        }
        assert(text@ =~= before + escape_of(rest[0]));
        assert(rest.drop_first() =~= s@.skip(i + 1));
        assert(text@ + escaped(s@.skip(i + 1)) =~= before + escaped(rest));
        i = i + 1;
    }
    assert(text@ + escaped(s@.skip(i as int)) =~= text@);
    text
}

/// The five names, letter by letter.
pub proof fn lemma_escapes()
    ensures
        "&amp;"@ == seq!['&', 'a', 'm', 'p', ';'],
        "&lt;"@ == seq!['&', 'l', 't', ';'],
        "&gt;"@ == seq!['&', 'g', 't', ';'],
        "&quot;"@ == seq!['&', 'q', 'u', 'o', 't', ';'],
        "&#39;"@ == seq!['&', '#', '3', '9', ';'],
{
    reveal_strlit("&amp;");
    reveal_strlit("&lt;");
    reveal_strlit("&gt;");
    reveal_strlit("&quot;");
    reveal_strlit("&#39;");
    assert("&amp;"@ =~= seq!['&', 'a', 'm', 'p', ';']);
    assert("&lt;"@ =~= seq!['&', 'l', 't', ';']);
    assert("&gt;"@ =~= seq!['&', 'g', 't', ';']);
    assert("&quot;"@ =~= seq!['&', 'q', 'u', 'o', 't', ';']);
    assert("&#39;"@ =~= seq!['&', '#', '3', '9', ';']);
}

/// An escaped text opens no tag and ends no attribute: it holds no angle bracket and no quote.
pub proof fn escaped_is_inert(text: Seq<char>, i: int)
    requires
        0 <= i < escaped(text).len(),
    ensures
        escaped(text)[i] != '<',
        escaped(text)[i] != '>',
        escaped(text)[i] != '"',
        escaped(text)[i] != '\'',
    decreases text.len(),
{
    lemma_escapes();
    let head = escape_of(text[0]);
    if i >= head.len() {
        escaped_is_inert(text.drop_first(), i - head.len());
    }
}

/// Different texts are written differently: what a page says is what was put into it.
pub proof fn escaped_is_injective(left: Seq<char>, right: Seq<char>)
    requires
        escaped(left) == escaped(right),
    ensures
        left == right,
    decreases left.len(),
{
    lemma_escapes();
    if left.len() == 0 || right.len() == 0 {
        if left.len() > 0 {
            assert(escaped(left).len() > 0);
        }
        if right.len() > 0 {
            assert(escaped(right).len() > 0);
        }
        assert(left =~= right);
    } else {
        let left_head = escape_of(left[0]);
        let right_head = escape_of(right[0]);
        let whole = escaped(left);
        assert(whole[0] == left_head[0] && whole[0] == right_head[0]);
        if left_head.len() > 1 {
            assert(whole[1] == left_head[1]);
        }
        if right_head.len() > 1 {
            assert(whole[1] == right_head[1]);
        }
        assert(left[0] == right[0]);
        assert(escaped(left.drop_first()) =~= whole.skip(left_head.len() as int));
        assert(escaped(right.drop_first()) =~= whole.skip(right_head.len() as int));
        escaped_is_injective(left.drop_first(), right.drop_first());
        assert(left =~= seq![left[0]] + left.drop_first());
        assert(right =~= seq![right[0]] + right.drop_first());
    }
}

/// Texts one after the other are written one after the other.
pub proof fn escaping_goes_piece_by_piece(left: Seq<char>, right: Seq<char>)
    ensures
        escaped(left + right) == escaped(left) + escaped(right),
    decreases left.len(),
{
    if left.len() == 0 {
        assert(left + right =~= right);
        assert(escaped(left) + escaped(right) =~= escaped(right));
    } else {
        escaping_goes_piece_by_piece(left.drop_first(), right);
        assert((left + right).drop_first() =~= left.drop_first() + right);
        assert(escaped(left + right) =~= escaped(left) + escaped(right));
    }
}

/// What a browser shows of `text`, read once from left to right: the five names as the characters
/// they stand for, everything else as it is.
pub open spec fn unescaped(text: Seq<char>) -> Seq<char>
    decreases text.len(),
{
    proof {
        lemma_escapes();
    }
    if text.len() == 0 {
        Seq::empty()
    } else if starts_with(text, "&amp;"@) {
        seq!['&'] + unescaped(text.skip(5))
    } else if starts_with(text, "&lt;"@) {
        seq!['<'] + unescaped(text.skip(4))
    } else if starts_with(text, "&gt;"@) {
        seq!['>'] + unescaped(text.skip(4))
    } else if starts_with(text, "&quot;"@) {
        seq!['"'] + unescaped(text.skip(6))
    } else if starts_with(text, "&#39;"@) {
        seq!['\''] + unescaped(text.skip(5))
    } else {
        seq![text[0]] + unescaped(text.drop_first())
    }
}

/// What is shown of an escaped text is the text.
pub proof fn unescaping_gives_the_text_back(text: Seq<char>)
    ensures
        unescaped(escaped(text)) == text,
    decreases text.len(),
{
    if text.len() > 0 {
        let rest = escaped(text.drop_first());
        unescaping_gives_the_text_back(text.drop_first());
        lemma_unescaped_first(text[0], rest);
        assert(seq![text[0]] + text.drop_first() =~= text);
    } else {
        assert(unescaped(escaped(text)) =~= text);
    }
}

proof fn lemma_unescaped_first(ch: char, rest: Seq<char>)
    ensures
        unescaped(escape_of(ch) + rest) == seq![ch] + unescaped(rest),
{
    lemma_escapes();
    let head = escape_of(ch);
    let text = head + rest;
    assert(text.skip(head.len() as int) =~= rest);
    assert(text.drop_first() =~= text.skip(1));
    lemma_start(text, "&amp;"@);
    lemma_start(text, "&lt;"@);
    lemma_start(text, "&gt;"@);
    lemma_start(text, "&quot;"@);
    lemma_start(text, "&#39;"@);
    assert(text.subrange(0, head.len() as int) =~= head);
    assert(starts_with(text, head));
}

/// What a text starts with are its first characters.
proof fn lemma_start(text: Seq<char>, start: Seq<char>)
    requires
        start.len() > 1,
    ensures
        starts_with(text, start) ==> text.len() > 1 && text[0] == start[0] && text[1] == start[1],
{
    if starts_with(text, start) {
        let found = text.subrange(0, start.len() as int);
        assert(found[0] == text[0] && found[1] == text[1]);
    }
}

/// The five characters that mean something in a page are written by their names, and every other
/// character as it is.
pub proof fn five_characters_have_names(ch: char)
    ensures
        escaped(seq!['&']) == "&amp;"@,
        escaped(seq!['<']) == "&lt;"@,
        escaped(seq!['>']) == "&gt;"@,
        escaped(seq!['"']) == "&quot;"@,
        escaped(seq!['\'']) == "&#39;"@,
        ch != '&' && ch != '<' && ch != '>' && ch != '"' && ch != '\'' ==> escaped(seq![ch])
            == seq![ch],
{
    lemma_escaped_alone('&');
    lemma_escaped_alone('<');
    lemma_escaped_alone('>');
    lemma_escaped_alone('"');
    lemma_escaped_alone('\'');
    lemma_escaped_alone(ch);
}

proof fn lemma_escaped_alone(ch: char)
    ensures
        escaped(seq![ch]) == escape_of(ch),
{
    assert(seq![ch].drop_first() =~= Seq::empty());
    assert(escaped(Seq::empty()) =~= Seq::empty());
    assert(escaped(seq![ch]) =~= escape_of(ch));
}

} // verus!
