//! Cookies: receiving an upload of them, and telling the download tool which to use.

use crate::http::{byte_count, json_reply, plain_reply, response_head, upload_response_head};
use crate::http::{Response, ResponseView};
use crate::json::{new_object, no_fields, object_text, set_field, JsonField, JsonView};
use crate::numbers::{all_digits, decimal_reads_back, decimal_text, is_digit, lemma_decimal};
use crate::numbers::{parse_unsigned, parsed_unsigned};
use crate::settings::{filled_setting, read_setting};
use crate::text::{ascii_lower, begins_with, chars_of, find_char, is_space_char, lemma_find_char};
use crate::text::{in_lower, is_space, lines, lower_ascii, optional, split_char, split_on};
use crate::text::{splitting_cuts_at_the_first_separator, starts_with, text_lines, trim_start};
use crate::text::{trim_text, trimmed, trimming_takes_off_white_space, two_texts, views};
use crate::unicode::{decode, decoded};
use std::path::PathBuf;
use vstd::prelude::*;
use vstd::slice::{slice_subrange, slice_to_vec};

verus! {

/// A blank line, which ends the headers of a message, starts at `at`.
pub open spec fn blank_line_at(bytes: Seq<u8>, at: int) -> bool {
    &&& 0 <= at
    &&& at + 4 <= bytes.len()
    &&& bytes[at] == 13
    &&& bytes[at + 1] == 10
    &&& bytes[at + 2] == 13
    &&& bytes[at + 3] == 10
}

/// The bytes that end the headers of a message.
pub open spec fn blank_line() -> Seq<u8> {
    seq![13, 10, 13, 10]
}

/// The first index not below `from` at which the headers end.
pub open spec fn header_end_from(bytes: Seq<u8>, from: int) -> Option<int>
    decreases bytes.len() - from,
{
    if from + 4 > bytes.len() {
        None
    } else if blank_line_at(bytes, from) {
        Some(from)
    } else {
        header_end_from(bytes, from + 1)
    }
}

/// The headers of a message, without the blank line after them.
pub open spec fn head_of(bytes: Seq<u8>) -> Seq<u8> {
    match header_end_from(bytes, 0) {
        Some(at) => bytes.take(at),
        None => bytes,
    }
}

/// What has arrived of the body of a message.
pub open spec fn body_of(bytes: Seq<u8>) -> Seq<u8> {
    match header_end_from(bytes, 0) {
        Some(at) => bytes.skip(at + 4),
        None => Seq::empty(),
    }
}

/// `line` is the header that states the length of the body.
pub open spec fn is_length_header(line: Seq<char>) -> bool {
    starts_with(line.map_values(|ch: char| ascii_lower(ch)), "content-length:"@)
}

/// The first of `list` that states the length of the body.
pub open spec fn length_header(list: Seq<Seq<char>>) -> Option<Seq<char>>
    decreases list.len(),
{
    if list.len() == 0 {
        None
    } else if is_length_header(list[0]) {
        Some(list[0])
    } else {
        length_header(list.drop_first())
    }
}

/// The number in a header, which stands behind its first colon and before the next.
pub open spec fn header_number(line: Seq<char>) -> Option<nat> {
    let pieces = split_char(line, ':');
    if pieces.len() > 1 {
        parsed_unsigned(trimmed(pieces[1]), usize::MAX as nat)
    } else {
        None
    }
}

/// The length of the body that the headers state; zero where they state none.
pub open spec fn declared_length(head: Seq<char>) -> nat {
    match length_header(lines(head)) {
        Some(line) => match header_number(line) {
            Some(length) => length,
            None => 0,
        },
        None => 0,
    }
}

/// Where the headers end.
fn find_header_end(bytes: &[u8]) -> (found: Option<usize>)
    ensures
        header_end_from(bytes@, 0) == (match found {
            Some(at) => Some(at as int),
            None => None,
        }),
        found matches Some(at) ==> at + 4 <= bytes.len(),
{
    let mut at: usize = 0;
    while bytes.len() >= 4 && at <= bytes.len() - 4
        invariant
            at <= bytes.len(),
            header_end_from(bytes@, 0) == header_end_from(bytes@, at as int),
        decreases bytes.len() - at,
    {
        if bytes[at] == 13 && bytes[at + 1] == 10 && bytes[at + 2] == 13 && bytes[at + 3] == 10 {
            return Some(at);
        }
        at = at + 1;
    }
    None
}

/// Whether `line` is the header that states the length of the body.
fn states_length(line: &str) -> (states: bool)
    ensures
        states == is_length_header(line@),
{
    let chars = chars_of(line);
    let mut lower = String::new();
    let ghost wanted = line@.map_values(|ch: char| ascii_lower(ch));
    let mut i: usize = 0;
    while i < chars.len()
        invariant
            i <= chars.len(),
            chars@ == line@,
            wanted == line@.map_values(|ch: char| ascii_lower(ch)),
            lower@ == wanted.take(i as int),
        decreases chars.len() - i,
    {
        lower.push(lower_ascii(chars[i]));
        i = i + 1;
        assert(lower@ =~= wanted.take(i as int));
    }
    assert(wanted.take(i as int) =~= wanted);
    begins_with(lower.as_str(), "content-length:")
}

/// The length of the body that the headers state; zero where they state none.
pub fn parse_content_length(head: &str) -> (length: usize)
    ensures
        length == declared_length(head@),
{
    let list = text_lines(head);
    let ghost all = lines(head@);
    let mut i: usize = 0;
    assert(all.skip(0) =~= all);
    while i < list.len()
        invariant
            i <= list.len(),
            all == lines(head@),
            views(list@) == all,
            length_header(all) == length_header(all.skip(i as int)),
        decreases list.len() - i,
    {
        assert(all.skip(i as int)[0] == list@[i as int]@);
        assert(all.skip(i as int).drop_first() =~= all.skip(i + 1));
        if states_length(list[i].as_str()) {
            let line = chars_of(list[i].as_str());
            let pieces = split_on(line.as_slice(), ':');
            assert(views(pieces@).len() == pieces@.len());
            if pieces.len() < 2 {
                return 0;
            }
            assert(views(pieces@)[1] == pieces@[1]@);
            let value = trim_text(pieces[1].as_str());
            return match parse_unsigned(value.as_str(), usize::MAX as u64) {
                Some(length) => length as usize,
                None => 0,
            };
        }
        i = i + 1;
    }
    0
}

/// An upload that is on its way.
pub struct CookieUpload {
    /// The length of the body that the headers state.
    pub content_length: usize,
    /// What has arrived of the body.
    pub body: Vec<u8>,
}

/// What is kept of a body once no more of it arrives: nothing beyond the length that was stated,
/// if one was.
pub open spec fn kept_body(body: Seq<u8>, content_length: nat) -> Seq<u8> {
    if body.len() > content_length && content_length > 0 {
        body.take(content_length as int)
    } else {
        body
    }
}

/// `line` of a cookies file holds a cookie: it is neither blank nor a comment.
pub open spec fn is_cookie_line(line: Seq<char>) -> bool {
    trimmed(line).len() > 0 && trim_start(line)[0] != '#'
}

/// The number of lines that hold a cookie.
pub open spec fn cookie_lines(list: Seq<Seq<char>>) -> nat
    decreases list.len(),
{
    if list.len() == 0 {
        0
    } else {
        cookie_lines(list.drop_last()) + if is_cookie_line(list.last()) {
            1nat
        } else {
            0
        }
    }
}

/// Whether a line holds a cookie.
fn holds_cookie(line: &str) -> (holds: bool)
    ensures
        holds == is_cookie_line(line@),
{
    let chars = chars_of(line);
    let mut start: usize = 0;
    assert(chars@.skip(0) =~= chars@);
    while start < chars.len() && is_space_char(chars[start])
        invariant
            start <= chars.len(),
            chars@ == line@,
            trim_start(line@) == trim_start(chars@.skip(start as int)),
        decreases chars.len() - start,
    {
        assert(chars@.skip(start as int).drop_first() =~= chars@.skip(start + 1));
        start = start + 1;
    }
    let kept = trim_text(line);
    if kept.as_str().is_empty() {
        return false;
    }
    assert(start < chars.len()) by {
        if start == chars.len() {
            assert(chars@.skip(start as int) =~= Seq::empty());
        }
    }
    chars[start] != '#'
}

/// The number of cookies in a cookies file.
pub fn count_cookies(text: &str) -> (count: usize)
    ensures
        count == cookie_lines(lines(text@)),
{
    let list = text_lines(text);
    let ghost all = lines(text@);
    let mut count: usize = 0;
    let mut i: usize = 0;
    while i < list.len()
        invariant
            i <= list.len(),
            count <= i,
            all == lines(text@),
            views(list@) == all,
            count == cookie_lines(all.take(i as int)),
        decreases list.len() - i,
    {
        assert(all.take(i + 1).drop_last() =~= all.take(i as int));
        assert(all.take(i + 1).last() == list@[i as int]@);
        if holds_cookie(list[i].as_str()) {
            count = count + 1;
        }
        i = i + 1;
    }
    assert(all.take(i as int) =~= all);
    count
}

impl CookieUpload {
    /// Begins with what the first read brought: the headers, and perhaps some of the body.
    pub fn begin(initial: &[u8]) -> (upload: Self)
        ensures
            upload.body@ == body_of(initial@),
            upload.content_length == declared_length(decoded(head_of(initial@))),
    {
        match find_header_end(initial) {
            Some(at) => {
                let head = slice_subrange(initial, 0, at);
                let body = slice_subrange(initial, at + 4, initial.len());
                assert(head@ =~= initial@.take(at as int));
                assert(body@ =~= initial@.skip(at + 4));
                let head_text = decode(head);
                CookieUpload {
                    content_length: parse_content_length(head_text.as_str()),
                    body: slice_to_vec(body),
                }
            },
            None => {
                let head_text = decode(initial);
                CookieUpload {
                    content_length: parse_content_length(head_text.as_str()),
                    body: Vec::new(),
                }
            },
        }
    }

    /// Whether the body is still shorter than was stated.
    pub fn wants_more(&self) -> (wants: bool)
        ensures
            wants == (self.body@.len() < self.content_length),
    {
        self.body.len() < self.content_length
    }

    /// Takes up what a further read brought.
    pub fn receive(&mut self, chunk: &[u8])
        ensures
            final(self).content_length == old(self).content_length,
            final(self).body@ == old(self).body@ + chunk@,
    {
        let mut i: usize = 0;
        while i < chunk.len()
            invariant
                i <= chunk.len(),
                self.content_length == old(self).content_length,
                self.body@ == old(self).body@ + chunk@.take(i as int),
            decreases chunk.len() - i,
        {
            self.body.push(chunk[i]);
            i = i + 1;
            assert(self.body@ =~= old(self).body@ + chunk@.take(i as int));
        }
        assert(chunk@.take(i as int) =~= chunk@);
    }

    /// The text of the uploaded cookies file.
    pub fn finish(self) -> (text: String)
        ensures
            text@ == decoded(kept_body(self.body@, self.content_length as nat)),
    {
        let mut body = self.body;
        if body.len() > self.content_length && self.content_length > 0 {
            body.truncate(self.content_length);
            assert(body@ =~= kept_body(self.body@, self.content_length as nat));
        }
        decode(body.as_slice())
    }
}

/// The answer once the cookies are saved under `path`.
pub fn saved_reply(count: usize, path: &str) -> (reply: Response)
    ensures
        reply@ == json_reply(
            "200 OK"@,
            no_fields().insert("status"@, JsonView::Text("ok"@)).insert(
                "cookies"@,
                JsonView::Number(count as u64),
            ).insert("saved"@, JsonView::Text(path@)),
        ),
{
    let mut object = new_object();
    set_field(&mut object, "status", JsonField::Text("ok".to_owned()));
    set_field(&mut object, "cookies", JsonField::Number(count as u64));
    set_field(&mut object, "saved", JsonField::Text(path.to_owned()));
    Response {
        status: "200 OK".to_owned(),
        body: object_text(object),
        content_type: "application/json".to_owned(),
    }
}

/// The answer when the cookies cannot be saved.
pub fn save_failure(error: &str) -> (reply: Response)
    ensures
        reply@ == (ResponseView {
            status: "500 Internal Server Error"@,
            body: "save failed: "@ + error@,
            content_type: "text/plain; charset=utf-8"@,
        }),
{
    plain_reply("500 Internal Server Error", two_texts("save failed: ", error))
}

/// A path of the file system, which the library hands on without looking inside.
#[verifier::external_type_specification]
#[verifier::external_body]
pub struct ExPathBuf(PathBuf);

/// Sets the cookies file that the download tool is given, or clears it.
pub fn set_cookies_file(current: &mut Option<PathBuf>, path: Option<PathBuf>)
    ensures
        *final(current) == path,
{
    *current = path;
}

/// The arguments that tell the download tool which cookies to use: the uploaded file if there is
/// one, else those of a browser, else a file that the environment names.
pub open spec fn cookie_arguments(
    uploaded: Option<Seq<char>>,
    browser: Option<Seq<char>>,
    file: Option<Seq<char>>,
) -> Seq<Seq<char>> {
    if uploaded is Some {
        seq!["--cookies"@, uploaded->0]
    } else if filled_setting(browser) is Some {
        seq!["--cookies-from-browser"@, filled_setting(browser)->0]
    } else if filled_setting(file) is Some {
        seq!["--cookies"@, filled_setting(file)->0]
    } else {
        Seq::empty()
    }
}

/// A list of two texts.
fn pair_list(first: &str, second: String) -> (list: Vec<String>)
    ensures
        views(list@) == seq![first@, second@],
{
    let mut list: Vec<String> = Vec::new();
    list.push(first.to_owned());
    list.push(second);
    assert(views(list@) =~= seq![first@, second@]);
    list
}

/// The arguments that tell the download tool which cookies to use. `uploaded` is the path of the
/// uploaded file, `browser` and `file` are settings of the environment.
pub fn cookie_args(
    uploaded: &Option<String>,
    browser: &Option<String>,
    file: &Option<String>,
) -> (args: Vec<String>)
    ensures
        views(args@) == cookie_arguments(optional(*uploaded), optional(*browser), optional(*file)),
{
    if let Some(path) = uploaded {
        return pair_list("--cookies", path.clone());
    }
    if let Some(name) = read_setting(browser) {
        return pair_list("--cookies-from-browser", name);
    }
    if let Some(path) = read_setting(file) {
        return pair_list("--cookies", path);
    }
    let args: Vec<String> = Vec::new();
    assert(views(args@) =~= Seq::empty());
    args
}

/// The body of an upload once it was read: reading goes on with the next chunk until the stated
/// length is there or nothing more arrives.
pub open spec fn collected(body: Seq<u8>, chunks: Seq<Seq<u8>>, content_length: nat) -> Seq<u8>
    decreases chunks.len(),
{
    if body.len() >= content_length || chunks.len() == 0 {
        body
    } else {
        collected(body + chunks[0], chunks.drop_first(), content_length)
    }
}

/// An upload is the stated number of bytes from the start of its body, or all of the body where
/// that is shorter, however the body is split into what the first read brought and further chunks.
pub proof fn upload_does_not_depend_on_its_split(
    first: Seq<u8>,
    chunks: Seq<Seq<u8>>,
    content_length: nat,
)
    requires
        content_length > 0,
    ensures
        ({
            let whole = first + chunks.flatten();
            kept_body(collected(first, chunks, content_length), content_length) == (
            if content_length <= whole.len() {
                whole.take(content_length as int)
            } else {
                whole
            })
        }),
    decreases chunks.len(),
{
    let whole = first + chunks.flatten();
    if first.len() >= content_length {
        upload_is_what_was_stated(first, chunks.flatten(), content_length);
        assert(whole.take(content_length as int) =~= first.take(content_length as int));
    } else if chunks.len() == 0 {
        assert(whole =~= first);
    } else {
        upload_does_not_depend_on_its_split(first + chunks[0], chunks.drop_first(), content_length);
        assert(chunks.flatten() == chunks[0] + chunks.drop_first().flatten());
        assert(first + chunks[0] + chunks.drop_first().flatten() =~= whole);
    }
}

/// Once as much of a body has arrived as was stated, what is kept of it is that much from its
/// start, whatever arrives behind it.
pub proof fn upload_is_what_was_stated(body: Seq<u8>, behind: Seq<u8>, content_length: nat)
    requires
        0 < content_length <= body.len(),
    ensures
        kept_body(body, content_length) == body.take(content_length as int),
        kept_body(body + behind, content_length) == kept_body(body, content_length),
{
    assert(body.take(body.len() as int) =~= body);
    assert((body + behind).take(content_length as int) =~= body.take(content_length as int));
    assert((body + behind).take((body + behind).len() as int) =~= body + behind);
}

/// The first line of a text, where it ends in a carriage return and a line feed.
proof fn lemma_first_of_lines(line: Seq<char>, rest: Seq<char>)
    requires
        !line.contains('\n'),
    ensures
        lines(line + "\r\n"@ + rest) == seq![line] + lines(rest),
{
    reveal_strlit("\r\n");
    let text = line + "\r\n"@ + rest;
    let end = line.len() as int + 1;
    lemma_find_char(text, '\n', 0);
    assert forall|i: int| 0 <= i < end implies text[i] != '\n' by {
        if i < line.len() {
            assert(text[i] == line[i]);
            assert(line.contains(line[i]));
        }
    }
    assert(text[end] == '\n');
    assert(find_char(text, '\n') == Some(end));
    assert(text.take(end).last() == '\r');
    assert(text.take(end).drop_last() =~= line);
    assert(text.skip(end + 1) =~= rest);
}

/// The header that states a length, and what it states.
proof fn lemma_length_header(length: nat)
    requires
        length <= usize::MAX,
    ensures
        is_length_header("Content-Length: "@ + decimal_text(length)),
        header_number("Content-Length: "@ + decimal_text(length)) == Some(length),
        !("Content-Length: "@ + decimal_text(length)).contains('\n'),
{
    let digits = decimal_text(length);
    let line = "Content-Length: "@ + digits;
    lemma_decimal(length);
    decimal_reads_back(length, usize::MAX as nat);
    reveal_strlit("Content-Length: ");
    reveal_strlit("content-length:");
    let lower = line.map_values(|ch: char| ascii_lower(ch));
    assert(lower.subrange(0, 15) =~= "content-length:"@);
    assert forall|i: int| 0 <= i < digits.len() implies is_digit(#[trigger] digits[i]) by {
        assert(all_digits(digits));
    }
    assert forall|i: int| 0 <= i < line.len() implies line[i] != '\n' by {
        if i >= 16 {
            assert(line[i] == digits[i - 16]);
        }
    }
    lemma_find_char(line, ':', 0);
    assert(line[14] == ':');
    assert(find_char(line, ':') == Some(14int));
    let value = line.skip(15);
    assert(value =~= seq![' '] + digits);
    lemma_find_char(value, ':', 0);
    assert forall|i: int| 0 <= i < value.len() implies value[i] != ':' by {
        if i >= 1 {
            assert(value[i] == digits[i - 1]);
        }
    }
    assert(find_char(value, ':') is None);
    assert(split_char(value, ':') == seq![value]);
    assert(split_char(line, ':')[1] == value);
    assert(value.drop_first() =~= digits);
    assert(is_digit(digits[0]));
    assert(trim_start(digits) == digits);
    assert(trim_start(value) == digits);
    assert(is_digit(digits[digits.len() - 1]));
    assert(trimmed(value) == digits);
}

/// A line that begins otherwise does not state a length.
proof fn lemma_other_header(line: Seq<char>, at: int)
    requires
        0 <= at < 15,
        at < line.len(),
        ascii_lower(line[at]) != "content-length:"@[at],
    ensures
        !is_length_header(line),
{
    reveal_strlit("content-length:");
    let lower = line.map_values(|ch: char| ascii_lower(ch));
    if starts_with(lower, "content-length:"@) {
        assert(lower.subrange(0, 15)[at] == "content-length:"@[at]);
        assert(lower[at] == ascii_lower(line[at]));
    }
}

/// The lines that every answer begins with.
proof fn lemma_first_headers(reply: ResponseView)
    requires
        !reply.status.contains('\n'),
        !reply.content_type.contains('\n'),
    ensures
        !("HTTP/1.1 "@ + reply.status).contains('\n'),
        !("Content-Type: "@ + reply.content_type).contains('\n'),
        !is_length_header("HTTP/1.1 "@ + reply.status),
        !is_length_header("Content-Type: "@ + reply.content_type),
{
    reveal_strlit("HTTP/1.1 ");
    reveal_strlit("Content-Type: ");
    reveal_strlit("content-length:");
    let status = "HTTP/1.1 "@ + reply.status;
    let kind = "Content-Type: "@ + reply.content_type;
    if status.contains('\n') {
        let k = status.index_of('\n');
        assert(reply.status[k - 9] == '\n');
    }
    if kind.contains('\n') {
        let k = kind.index_of('\n');
        assert(reply.content_type[k - 14] == '\n');
    }
    assert(status[0] == 'H');
    lemma_other_header(status, 0);
    assert(kind[8] == 'T');
    lemma_other_header(kind, 8);
}

/// The header behind two others that do not state a length.
proof fn lemma_third_header(first: Seq<char>, second: Seq<char>, rest: Seq<Seq<char>>)
    requires
        !is_length_header(first),
        !is_length_header(second),
    ensures
        length_header(seq![first] + (seq![second] + rest)) == length_header(rest),
{
    let some = seq![second] + rest;
    let all = seq![first] + some;
    assert(all.drop_first() =~= some);
    assert(some.drop_first() =~= rest);
    assert(all[0] == first);
    assert(some[0] == second);
    assert(length_header(some) == length_header(rest));
    assert(length_header(all) == length_header(some));
}

proof fn lemma_header_starts()
    ensures
        "\r\nContent-Type: "@ == "\r\n"@ + "Content-Type: "@,
        "\r\nContent-Length: "@ == "\r\n"@ + "Content-Length: "@,
{
    reveal_strlit("\r\n");
    reveal_strlit("\r\nContent-Type: ");
    reveal_strlit("Content-Type: ");
    reveal_strlit("\r\nContent-Length: ");
    reveal_strlit("Content-Length: ");
    assert("\r\nContent-Type: "@ =~= "\r\n"@ + "Content-Type: "@);
    assert("\r\nContent-Length: "@ =~= "\r\n"@ + "Content-Length: "@);
}

proof fn lemma_answer_ends()
    ensures
        "\r\nAccess-Control-Allow-Origin: *\r\nConnection: close"@ == "\r\n"@
            + "Access-Control-Allow-Origin: *\r\nConnection: close"@,
{
    reveal_strlit("\r\n");
    reveal_strlit("\r\nAccess-Control-Allow-Origin: *\r\nConnection: close");
    reveal_strlit("Access-Control-Allow-Origin: *\r\nConnection: close");
    assert("\r\nAccess-Control-Allow-Origin: *\r\nConnection: close"@ =~= "\r\n"@
        + "Access-Control-Allow-Origin: *\r\nConnection: close"@);
}

proof fn lemma_upload_answer_parts()
    ensures
        "\r\nAccess-Control-Allow-Origin: *\r\nContent-Length: "@ == "\r\n"@
            + "Access-Control-Allow-Origin: *"@ + "\r\n"@ + "Content-Length: "@,
        "\r\nConnection: close"@ == "\r\n"@ + "Connection: close"@,
{
    reveal_strlit("\r\n");
    reveal_strlit("\r\nAccess-Control-Allow-Origin: *\r\nContent-Length: ");
    reveal_strlit("Access-Control-Allow-Origin: *");
    reveal_strlit("Content-Length: ");
    reveal_strlit("\r\nConnection: close");
    reveal_strlit("Connection: close");
    assert("\r\nAccess-Control-Allow-Origin: *\r\nContent-Length: "@ =~= "\r\n"@
        + "Access-Control-Allow-Origin: *"@ + "\r\n"@ + "Content-Length: "@);
    assert("\r\nConnection: close"@ =~= "\r\n"@ + "Connection: close"@);
}

#[verifier::rlimit(40)]
proof fn lemma_answer_length(reply: ResponseView)
    requires
        !reply.status.contains('\n'),
        !reply.content_type.contains('\n'),
        byte_count(reply.body) <= usize::MAX,
    ensures
        declared_length(response_head(reply)) == byte_count(reply.body),
{
    let status = "HTTP/1.1 "@ + reply.status;
    let kind = "Content-Type: "@ + reply.content_type;
    let size = "Content-Length: "@ + decimal_text(byte_count(reply.body));
    let crlf = "\r\n"@;
    let last = "Access-Control-Allow-Origin: *\r\nConnection: close"@;
    let head = response_head(reply);
    lemma_header_starts();
    lemma_answer_ends();
    assert(head =~= status + crlf + (kind + crlf + (size + crlf + last)));
    lemma_first_headers(reply);
    lemma_length_header(byte_count(reply.body));
    lemma_first_of_lines(status, kind + crlf + (size + crlf + last));
    lemma_first_of_lines(kind, size + crlf + last);
    lemma_first_of_lines(size, last);
    let rest = seq![size] + lines(last);
    assert(rest[0] == size);
    assert(length_header(rest) == Some(size));
    lemma_third_header(status, kind, rest);
}

#[verifier::rlimit(40)]
proof fn lemma_upload_answer_length(reply: ResponseView)
    requires
        !reply.status.contains('\n'),
        !reply.content_type.contains('\n'),
        byte_count(reply.body) <= usize::MAX,
    ensures
        declared_length(upload_response_head(reply)) == byte_count(reply.body),
{
    let status = "HTTP/1.1 "@ + reply.status;
    let kind = "Content-Type: "@ + reply.content_type;
    let origin = "Access-Control-Allow-Origin: *"@;
    let size = "Content-Length: "@ + decimal_text(byte_count(reply.body));
    let crlf = "\r\n"@;
    let last = "Connection: close"@;
    let head = upload_response_head(reply);
    let behind = size + crlf + last;
    lemma_header_starts();
    lemma_upload_answer_parts();
    assert(head =~= status + crlf + (kind + crlf + (origin + crlf + behind)));
    lemma_first_headers(reply);
    lemma_length_header(byte_count(reply.body));
    assert(!origin.contains('\n') && !is_length_header(origin)) by {
        reveal_strlit("Access-Control-Allow-Origin: *");
        reveal_strlit("content-length:");
        assert(origin[0] == 'A');
        lemma_other_header(origin, 0);
    }
    lemma_first_of_lines(status, kind + crlf + (origin + crlf + behind));
    lemma_first_of_lines(kind, origin + crlf + behind);
    lemma_first_of_lines(origin, behind);
    lemma_first_of_lines(size, last);
    let rest = seq![size] + lines(last);
    let more = seq![origin] + rest;
    assert(rest[0] == size);
    assert(more[0] == origin);
    assert(more.drop_first() =~= rest);
    assert(length_header(rest) == Some(size));
    assert(length_header(more) == length_header(rest));
    lemma_third_header(status, kind, more);
}

/// An answer states the length of its body in bytes, as the reader of headers understands it.
pub proof fn answers_state_their_length(reply: ResponseView)
    requires
        !reply.status.contains('\n'),
        !reply.content_type.contains('\n'),
        byte_count(reply.body) <= usize::MAX,
    ensures
        declared_length(response_head(reply)) == byte_count(reply.body),
        declared_length(upload_response_head(reply)) == byte_count(reply.body),
{
    lemma_answer_length(reply);
    lemma_upload_answer_length(reply);
}

/// What stands behind the blank line after the headers of a message is its body, and what stands
/// before it are its headers.
pub proof fn body_follows_the_blank_line(head: Seq<u8>, body: Seq<u8>)
    requires
        forall|k: int|
            0 <= k < head.len() ==> !#[trigger] blank_line_at(head + blank_line(), k),
    ensures
        head_of(head + blank_line() + body) == head,
        body_of(head + blank_line() + body) == body,
{
    let message = head + blank_line() + body;
    lemma_header_end(head, body, 0);
    assert(message.take(head.len() as int) =~= head);
    assert(message.skip(head.len() as int + 4) =~= body);
}

proof fn lemma_header_end(head: Seq<u8>, body: Seq<u8>, from: int)
    requires
        0 <= from <= head.len(),
        forall|k: int|
            0 <= k < head.len() ==> !#[trigger] blank_line_at(head + blank_line(), k),
    ensures
        header_end_from(head + blank_line() + body, from) == Some(head.len() as int),
    decreases head.len() - from,
{
    let start = head + blank_line();
    let message = start + body;
    if from < head.len() {
        assert(forall|i: int| 0 <= i < start.len() ==> message[i] == start[i]);
        assert(!blank_line_at(start, from));
        lemma_header_end(head, body, from + 1);
    } else {
        assert(blank_line_at(message, from));
    }
}

/// An uploaded cookies file is used before anything else, then the cookies of a browser, then a
/// file that the environment names; where none of these is given, nothing is asked for. A setting
/// of white space alone is none.
pub proof fn uploaded_cookies_come_first(
    uploaded: Seq<char>,
    browser: Option<Seq<char>>,
    file: Option<Seq<char>>,
)
    ensures
        cookie_arguments(Some(uploaded), browser, file) == seq!["--cookies"@, uploaded],
        browser is Some && trimmed(browser->0).len() > 0 ==> cookie_arguments(None, browser, file)
            == seq!["--cookies-from-browser"@, trimmed(browser->0)],
        (browser is None || trimmed(browser->0).len() == 0) && file is Some && trimmed(
            file->0,
        ).len() > 0 ==> cookie_arguments(None, browser, file) == seq![
            "--cookies"@,
            trimmed(file->0),
        ],
        (browser is None || trimmed(browser->0).len() == 0) && (file is None || trimmed(
            file->0,
        ).len() == 0) ==> cookie_arguments(None, browser, file).len() == 0,
{
}

/// A line holds a cookie exactly if it is not blank and does not begin, white space aside, with a
/// number sign.
pub proof fn a_cookie_line_is_no_comment(before: Seq<char>, line: Seq<char>)
    requires
        forall|i: int| 0 <= i < before.len() ==> is_space(#[trigger] before[i]),
        line.len() > 0 ==> !is_space(line[0]) && !is_space(line.last()),
    ensures
        is_cookie_line(before + line) <==> line.len() > 0 && line[0] != '#',
{
    trimming_takes_off_white_space(before, line, Seq::empty());
    assert(before + line + Seq::<char>::empty() =~= before + line);
    lemma_trim_start_of(before, line);
}

proof fn lemma_trim_start_of(before: Seq<char>, line: Seq<char>)
    requires
        forall|i: int| 0 <= i < before.len() ==> is_space(#[trigger] before[i]),
        line.len() > 0 ==> !is_space(line[0]),
    ensures
        trim_start(before + line) == line,
    decreases before.len(),
{
    if before.len() == 0 {
        assert(before + line =~= line);
    } else {
        assert((before + line)[0] == before[0]);
        assert((before + line).drop_first() =~= before.drop_first() + line);
        lemma_trim_start_of(before.drop_first(), line);
    }
}

/// The cookies of two lists of lines add up; a single line is one or none.
pub proof fn cookies_are_counted_line_by_line(left: Seq<Seq<char>>, right: Seq<Seq<char>>)
    ensures
        cookie_lines(left + right) == cookie_lines(left) + cookie_lines(right),
        left.len() == 0 ==> cookie_lines(left) == 0,
        left.len() == 1 ==> cookie_lines(left) == (if is_cookie_line(left[0]) {
            1nat
        } else {
            0
        }),
    decreases right.len(),
{
    if right.len() == 0 {
        assert(left + right =~= left);
    } else {
        cookies_are_counted_line_by_line(left, right.drop_last());
        assert((left + right).drop_last() =~= left + right.drop_last());
        assert((left + right).last() == right.last());
    }
    if left.len() == 1 {
        assert(left.drop_last().len() == 0);
        assert(left.last() == left[0]);
        assert(cookie_lines(left.drop_last()) == 0);
    }
}

/// The length of a body is what the first header says that states one, in letters of any case and
/// with any white space round the number; headers that come later do not matter.
pub proof fn the_first_length_counts(
    earlier: Seq<Seq<char>>,
    name: Seq<char>,
    before: Seq<char>,
    length: nat,
    behind: Seq<char>,
    later: Seq<Seq<char>>,
    head: Seq<char>,
)
    requires
        length <= usize::MAX,
        name.len() == 14,
        in_lower(name) == "content-length"@,
        forall|i: int| 0 <= i < before.len() ==> is_space(#[trigger] before[i]),
        forall|i: int| 0 <= i < behind.len() ==> is_space(#[trigger] behind[i]),
        forall|k: int| 0 <= k < earlier.len() ==> !is_length_header(#[trigger] earlier[k]),
        lines(head) == earlier + seq![
            name + seq![':'] + (before + decimal_text(length) + behind),
        ] + later,
    ensures
        declared_length(head) == length,
{
    let digits = decimal_text(length);
    let value = before + digits + behind;
    let line = name + seq![':'] + value;
    lemma_decimal(length);
    decimal_reads_back(length, usize::MAX as nat);
    assert(is_digit(digits[0]) && is_digit(digits[digits.len() - 1]));
    trimming_takes_off_white_space(before, digits, behind);
    reveal_strlit("content-length");
    reveal_strlit("content-length:");
    assert forall|k: int| 0 <= k < 14 implies ascii_lower(#[trigger] name[k])
        == "content-length"@[k] by {
        assert(in_lower(name)[k] == "content-length"@[k]);
    }
    if name.contains(':') {
        let k = name.index_of(':');
        assert(ascii_lower(name[k]) == ':');
    }
    if value.contains(':') {
        let k = value.index_of(':');
        if k < before.len() {
            assert(is_space(before[k]));
        } else if k < before.len() + digits.len() {
            assert(is_digit(digits[k - before.len()]));
        } else {
            assert(is_space(behind[k - before.len() - digits.len()]));
        }
    }
    splitting_cuts_at_the_first_separator(name, value, ':');
    splitting_cuts_at_the_first_separator(value, Seq::empty(), ':');
    assert(split_char(line, ':')[1] == value);
    let lower = line.map_values(|ch: char| ascii_lower(ch));
    assert(lower.subrange(0, 15) =~= "content-length:"@);
    assert(is_length_header(line));
    lemma_header_behind(earlier, line, later);
    assert(earlier + seq![line] + later =~= earlier + (seq![line] + later));
}

proof fn lemma_header_behind(earlier: Seq<Seq<char>>, line: Seq<char>, later: Seq<Seq<char>>)
    requires
        is_length_header(line),
        forall|k: int| 0 <= k < earlier.len() ==> !is_length_header(#[trigger] earlier[k]),
    ensures
        length_header(earlier + (seq![line] + later)) == Some(line),
    decreases earlier.len(),
{
    let all = earlier + (seq![line] + later);
    if earlier.len() == 0 {
        assert(all[0] == line);
    } else {
        assert(all[0] == earlier[0]);
        assert(all.drop_first() =~= earlier.drop_first() + (seq![line] + later));
        lemma_header_behind(earlier.drop_first(), line, later);
    }
}

/// Where no header states a length, the body has none.
pub proof fn no_header_states_no_length(head: Seq<char>)
    requires
        forall|k: int| 0 <= k < lines(head).len() ==> !is_length_header(#[trigger] lines(head)[k]),
    ensures
        declared_length(head) == 0,
{
    lemma_no_header(lines(head));
}

proof fn lemma_no_header(list: Seq<Seq<char>>)
    requires
        forall|k: int| 0 <= k < list.len() ==> !is_length_header(#[trigger] list[k]),
    ensures
        length_header(list) is None,
    decreases list.len(),
{
    if list.len() > 0 {
        let rest = list.drop_first();
        assert(forall|k: int| 0 <= k < rest.len() ==> rest[k] == list[k + 1]);
        lemma_no_header(rest);
    }
}

/// A body without a stated length is kept as it arrived.
pub proof fn a_body_without_a_length_is_kept(body: Seq<u8>, chunks: Seq<Seq<u8>>)
    ensures
        kept_body(body, 0) == body,
        collected(body, chunks, 0) == body,
{
}

/// A message without a blank line is all head.
pub proof fn a_message_without_a_blank_line_is_all_head(bytes: Seq<u8>)
    requires
        forall|k: int| 0 <= k < bytes.len() ==> !#[trigger] blank_line_at(bytes, k),
    ensures
        head_of(bytes) == bytes,
        body_of(bytes).len() == 0,
{
    lemma_no_header_end(bytes, 0);
}

proof fn lemma_no_header_end(bytes: Seq<u8>, from: int)
    requires
        0 <= from,
        forall|k: int| 0 <= k < bytes.len() ==> !#[trigger] blank_line_at(bytes, k),
    ensures
        header_end_from(bytes, from) is None,
    decreases bytes.len() - from,
{
    if from + 4 <= bytes.len() {
        assert(!blank_line_at(bytes, from));
        lemma_no_header_end(bytes, from + 1);
    }
}

/// A line states a length exactly if it begins with the name of that header, in letters of any
/// case, and a colon.
pub proof fn a_length_header_begins_with_its_name(line: Seq<char>)
    ensures
        is_length_header(line) <==> line.len() >= 15 && in_lower(line.take(14))
            == "content-length"@ && line[14] == ':',
{
    reveal_strlit("content-length");
    reveal_strlit("content-length:");
    let lower = line.map_values(|ch: char| ascii_lower(ch));
    if line.len() >= 15 {
        let start = lower.subrange(0, 15);
        assert(forall|k: int| 0 <= k < 14 ==> in_lower(line.take(14))[k] == start[k]);
        assert(start[14] == ascii_lower(line[14]));
        assert(ascii_lower(line[14]) == ':' <==> line[14] == ':');
        if is_length_header(line) {
            assert(start == "content-length:"@);
            assert(in_lower(line.take(14)) =~= start.take(14));
            assert(start.take(14) =~= "content-length"@);
            assert(start[14] == ':');
        }
        if in_lower(line.take(14)) == "content-length"@ && line[14] == ':' {
            assert(start =~= "content-length:"@);
        }
    }
}

/// A header that states no number states no length.
pub proof fn a_header_without_a_number_states_no_length(
    line: Seq<char>,
    later: Seq<Seq<char>>,
    head: Seq<char>,
)
    requires
        is_length_header(line),
        header_number(line) is None,
        lines(head) == seq![line] + later,
    ensures
        declared_length(head) == 0,
{
    lemma_header_behind(Seq::empty(), line, later);
    assert(Seq::<Seq<char>>::empty() + (seq![line] + later) =~= seq![line] + later);
}

/// The headers of a message end at the first carriage return and line feed that come twice, and
/// what stands behind these four bytes is its body.
pub proof fn headers_end_at_two_line_breaks(head: Seq<u8>, start: Seq<u8>, body: Seq<u8>)
    requires
        start == head + seq![13u8, 10, 13, 10],
        forall|k: int|
            0 <= k < head.len() && #[trigger] start[k] == 13 && start[k + 1] == 10 && start[k + 2]
                == 13 ==> start[k + 3] != 10,
    ensures
        head_of(start + body) == head,
        body_of(start + body) == body,
{
    assert(start =~= head + blank_line());
    assert forall|k: int| 0 <= k < head.len() implies !#[trigger] blank_line_at(
        head + blank_line(),
        k,
    ) by {
        assert(start[k] == start[k]);
    }
    body_follows_the_blank_line(head, body);
}

/// The number in a header ends at the next colon, whatever stands behind that.
pub proof fn a_length_ends_at_the_next_colon(name: Seq<char>, value: Seq<char>, rest: Seq<char>)
    requires
        !name.contains(':'),
        !value.contains(':'),
    ensures
        header_number(name + seq![':'] + (value + seq![':'] + rest)) == parsed_unsigned(
            trimmed(value),
            usize::MAX as nat,
        ),
        header_number(name + seq![':'] + value) == parsed_unsigned(
            trimmed(value),
            usize::MAX as nat,
        ),
        header_number(name) is None,
{
    splitting_cuts_at_the_first_separator(name, value + seq![':'] + rest, ':');
    splitting_cuts_at_the_first_separator(name, value, ':');
    splitting_cuts_at_the_first_separator(value, rest, ':');
}

} // verus!
