//! Requests and answers: which handler a request is for, and the text of an answer.

use crate::json::{json_text, new_object, no_fields, object_text, set_field, JsonField, JsonView};
use crate::numbers::{decimal_text, push_decimal};
use crate::text::{begins_with, chars_of, contains_text, ends_with, find_char, find_first_char};
use crate::text::{is_space, lemma_find_char, lemma_stands_inside, lines, lines_end_at_line_feeds};
use crate::text::{optional, same_text, starts_with, string_of, text_lines, text_words, views, words};
use crate::text::words_stand_between_white_space;
use crate::unicode::{decode, decoded};
use vstd::prelude::*;
use vstd::slice::slice_subrange;
use vstd::utf8::encode_utf8;

verus! {

/// How many bytes of a request are read at once.
pub const MAX_REQUEST_SIZE: usize = 8192;

/// An answer to a request.
pub struct Response {
    pub status: String,
    pub body: String,
    pub content_type: String,
}

/// What an answer says.
#[verifier::ext_equal]
pub struct ResponseView {
    pub status: Seq<char>,
    pub body: Seq<char>,
    pub content_type: Seq<char>,
}

impl View for Response {
    type V = ResponseView;

    open spec fn view(&self) -> ResponseView {
        ResponseView {
            status: self.status@,
            body: self.body@,
            content_type: self.content_type@,
        }
    }
}

/// An answer that is a JSON object.
pub open spec fn json_reply(status: Seq<char>, fields: Map<Seq<char>, JsonView>) -> ResponseView {
    ResponseView { status, body: json_text(fields), content_type: "application/json"@ }
}

/// An answer that is a page.
pub open spec fn page_reply(status: Seq<char>, page: Seq<char>) -> ResponseView {
    ResponseView { status, body: page, content_type: "text/html; charset=utf-8"@ }
}

/// The fields of an error report.
pub open spec fn error_fields(message: Seq<char>) -> Map<Seq<char>, JsonView> {
    no_fields().insert("status"@, JsonView::Text("error"@)).insert(
        "message"@,
        JsonView::Text(message),
    )
}

/// An error report under the given status.
fn error_reply(status: &str, message: &str) -> (reply: Response)
    ensures
        reply@ == json_reply(status@, error_fields(message@)),
{
    let mut object = new_object();
    set_field(&mut object, "status", JsonField::Text("error".to_owned()));
    set_field(&mut object, "message", JsonField::Text(message.to_owned()));
    Response {
        status: status.to_owned(),
        body: object_text(object),
        content_type: "application/json".to_owned(),
    }
}

/// An error report that the page shows to its user.
pub fn json_error(message: &str) -> (reply: Response)
    ensures
        reply@ == json_reply("200 OK"@, error_fields(message@)),
{
    error_reply("200 OK", message)
}

/// The answer to a request that lacks something.
pub fn bad_request(message: &str) -> (reply: Response)
    ensures
        reply@ == json_reply("400 Bad Request"@, error_fields(message@)),
{
    error_reply("400 Bad Request", message)
}

/// The answer to a request for something that does not exist.
pub fn not_found(message: &str) -> (reply: Response)
    ensures
        reply@ == json_reply("404 Not Found"@, error_fields(message@)),
{
    error_reply("404 Not Found", message)
}

/// The answer that says that the server runs.
pub fn health_reply() -> (reply: Response)
    ensures
        reply@ == json_reply("200 OK"@, no_fields().insert("status"@, JsonView::Text("ok"@))),
{
    let mut object = new_object();
    set_field(&mut object, "status", JsonField::Text("ok".to_owned()));
    Response {
        status: "200 OK".to_owned(),
        body: object_text(object),
        content_type: "application/json".to_owned(),
    }
}

/// A page as an answer.
pub fn html_reply(status: &str, page: String) -> (reply: Response)
    ensures
        reply@ == page_reply(status@, page@),
{
    Response {
        status: status.to_owned(),
        body: page,
        content_type: "text/html; charset=utf-8".to_owned(),
    }
}

/// What a request asks for, with the query that came with it.
pub enum Route {
    /// The method is not one that the server answers.
    NotAllowed,
    Health,
    Files,
    OpenFolder,
    Merge(Option<String>),
    ToMp3(Option<String>),
    Status(Option<String>),
    Download(Option<String>),
    Page(Option<String>),
    /// There is nothing under this path.
    Unknown,
}

/// What a request asks for, with the query that came with it.
pub enum RouteView {
    NotAllowed,
    Health,
    Files,
    OpenFolder,
    Merge(Option<Seq<char>>),
    ToMp3(Option<Seq<char>>),
    Status(Option<Seq<char>>),
    Download(Option<Seq<char>>),
    Page(Option<Seq<char>>),
    Unknown,
}

impl View for Route {
    type V = RouteView;

    open spec fn view(&self) -> RouteView {
        match *self {
            Route::NotAllowed => RouteView::NotAllowed,
            Route::Health => RouteView::Health,
            Route::Files => RouteView::Files,
            Route::OpenFolder => RouteView::OpenFolder,
            Route::Merge(query) => RouteView::Merge(optional(query)),
            Route::ToMp3(query) => RouteView::ToMp3(optional(query)),
            Route::Status(query) => RouteView::Status(optional(query)),
            Route::Download(query) => RouteView::Download(optional(query)),
            Route::Page(query) => RouteView::Page(optional(query)),
            Route::Unknown => RouteView::Unknown,
        }
    }
}

/// The first line of a text.
pub open spec fn first_line(text: Seq<char>) -> Seq<char> {
    if lines(text).len() > 0 {
        lines(text)[0]
    } else {
        Seq::empty()
    }
}

/// The method in a request line.
pub open spec fn method_of(line: Seq<char>) -> Seq<char> {
    if words(line).len() > 0 {
        words(line)[0]
    } else {
        Seq::empty()
    }
}

/// The target in a request line, the root where there is none.
pub open spec fn target_of(line: Seq<char>) -> Seq<char> {
    if words(line).len() > 1 {
        words(line)[1]
    } else {
        "/"@
    }
}

/// The path of a target: what stands before its first question mark.
pub open spec fn path_of(target: Seq<char>) -> Seq<char> {
    match find_char(target, '?') {
        Some(at) => target.take(at),
        None => target,
    }
}

/// The query of a target: what stands after its first question mark.
pub open spec fn query_of(target: Seq<char>) -> Option<Seq<char>> {
    match find_char(target, '?') {
        Some(at) => Some(target.skip(at + 1)),
        None => None,
    }
}

/// What is under a path.
pub open spec fn route_to(path: Seq<char>, query: Option<Seq<char>>) -> RouteView {
    if path == "/health"@ {
        RouteView::Health
    } else if path == "/files"@ {
        RouteView::Files
    } else if path == "/open-folder"@ {
        RouteView::OpenFolder
    } else if path == "/merge"@ {
        RouteView::Merge(query)
    } else if path == "/to-mp3"@ {
        RouteView::ToMp3(query)
    } else if path == "/download/status"@ {
        RouteView::Status(query)
    } else if starts_with(path, "/download"@) {
        RouteView::Download(query)
    } else if path == "/"@ {
        RouteView::Page(query)
    } else {
        RouteView::Unknown
    }
}

/// What a request asks for.
pub open spec fn route_of(request: Seq<char>) -> RouteView {
    let line = first_line(request);
    if method_of(line) != "GET"@ {
        RouteView::NotAllowed
    } else {
        route_to(path_of(target_of(line)), query_of(target_of(line)))
    }
}

/// The first line of a text.
fn take_first_line(text: &str) -> (line: String)
    ensures
        line@ == first_line(text@),
{
    let list = text_lines(text);
    if list.len() > 0 {
        assert(views(list@)[0] == list@[0]@);
        list[0].clone()
    } else {
        String::new()
    }
}

/// What is under a path.
fn choose_route(path: &str, query: Option<String>) -> (route: Route)
    ensures
        route@ == route_to(path@, optional(query)),
{
    if same_text(path, "/health") {
        Route::Health
    } else if same_text(path, "/files") {
        Route::Files
    } else if same_text(path, "/open-folder") {
        Route::OpenFolder
    } else if same_text(path, "/merge") {
        Route::Merge(query)
    } else if same_text(path, "/to-mp3") {
        Route::ToMp3(query)
    } else if same_text(path, "/download/status") {
        Route::Status(query)
    } else if begins_with(path, "/download") {
        Route::Download(query)
    } else if same_text(path, "/") {
        Route::Page(query)
    } else {
        Route::Unknown
    }
}

/// Finds out what a request asks for.
pub fn parse_request(raw: &str) -> (route: Route)
    ensures
        route@ == route_of(raw@),
{
    let line = take_first_line(raw);
    let line_chars = chars_of(line.as_str());
    let parts = text_words(line_chars.as_slice());
    assert(views(parts@).len() == parts@.len());
    if parts.len() == 0 {
        proof {
            reveal_strlit("GET");
            assert("GET"@.len() == 3);
        }
        return Route::NotAllowed;
    }
    assert(views(parts@)[0] == parts@[0]@);
    if !same_text(parts[0].as_str(), "GET") {
        return Route::NotAllowed;
    }
    let target = if parts.len() > 1 {
        assert(views(parts@)[1] == parts@[1]@);
        chars_of(parts[1].as_str())
    } else {
        chars_of("/")
    };
    match find_first_char(target.as_slice(), '?') {
        Some(at) => {
            let path = string_of(slice_subrange(target.as_slice(), 0, at));
            let query = string_of(slice_subrange(target.as_slice(), at + 1, target.len()));
            assert(path@ =~= target@.take(at as int));
            assert(query@ =~= target@.skip(at + 1));
            choose_route(path.as_str(), Some(query))
        },
        None => {
            let path = string_of(target.as_slice());
            choose_route(path.as_str(), None)
        },
    }
}

/// What arrives on a connection.
pub enum Incoming {
    /// A browser asks whether it may send from another origin.
    Preflight,
    /// Cookies are uploaded.
    Cookies,
    Request(Route),
}

/// What arrives on a connection.
pub enum IncomingView {
    Preflight,
    Cookies,
    Request(RouteView),
}

impl View for Incoming {
    type V = IncomingView;

    open spec fn view(&self) -> IncomingView {
        match *self {
            Incoming::Preflight => IncomingView::Preflight,
            Incoming::Cookies => IncomingView::Cookies,
            Incoming::Request(route) => IncomingView::Request(route@),
        }
    }
}

/// What a message is.
pub open spec fn incoming_of(message: Seq<char>) -> IncomingView {
    if starts_with(first_line(message), "OPTIONS "@) {
        IncomingView::Preflight
    } else if starts_with(first_line(message), "POST /cookies"@) {
        IncomingView::Cookies
    } else {
        IncomingView::Request(route_of(message))
    }
}

/// Finds out what a message is.
pub fn classify_message(message: &str) -> (incoming: Incoming)
    ensures
        incoming@ == incoming_of(message@),
{
    let line = take_first_line(message);
    if begins_with(line.as_str(), "OPTIONS ") {
        Incoming::Preflight
    } else if begins_with(line.as_str(), "POST /cookies") {
        Incoming::Cookies
    } else {
        Incoming::Request(parse_request(message))
    }
}

/// Finds out what the bytes read from a connection are.
pub fn classify_connection(bytes: &[u8]) -> (incoming: Incoming)
    ensures
        incoming@ == incoming_of(decoded(bytes@)),
{
    let message = decode(bytes);
    classify_message(message.as_str())
}

/// The answer to a preflight request, as it is sent.
pub const PREFLIGHT_RESPONSE: &'static str =
    "HTTP/1.1 204 No Content\r\nAccess-Control-Allow-Origin: *\r\nAccess-Control-Allow-Methods: GET, POST, OPTIONS\r\nAccess-Control-Allow-Headers: *\r\nContent-Length: 0\r\nConnection: close\r\n\r\n";

/// The number of bytes that a text takes as it is sent.
pub open spec fn byte_count(text: Seq<char>) -> nat {
    encode_utf8(text).len()
}

/// The status line and the headers of an answer.
pub open spec fn response_head(reply: ResponseView) -> Seq<char> {
    "HTTP/1.1 "@ + reply.status + "\r\nContent-Type: "@ + reply.content_type
        + "\r\nContent-Length: "@ + decimal_text(byte_count(reply.body))
        + "\r\nAccess-Control-Allow-Origin: *\r\nConnection: close"@
}

/// An answer as it is sent: status line and headers, a blank line, the body.
pub open spec fn response_text(reply: ResponseView) -> Seq<char> {
    response_head(reply) + "\r\n\r\n"@ + reply.body
}

/// An answer as it is sent.
pub fn render_response(reply: &Response) -> (text: String)
    ensures
        text@ == response_text(reply@),
{
    let mut text = "HTTP/1.1 ".to_owned();
    text.append(reply.status.as_str());
    text.append("\r\nContent-Type: ");
    text.append(reply.content_type.as_str());
    text.append("\r\nContent-Length: ");
    push_decimal(&mut text, reply.body.as_str().as_bytes().len() as u64);
    text.append("\r\nAccess-Control-Allow-Origin: *\r\nConnection: close");
    text.append("\r\n\r\n");
    text.append(reply.body.as_str());
    text
}

/// The status line and the headers of an answer to an upload.
pub open spec fn upload_response_head(reply: ResponseView) -> Seq<char> {
    "HTTP/1.1 "@ + reply.status + "\r\nContent-Type: "@ + reply.content_type
        + "\r\nAccess-Control-Allow-Origin: *\r\nContent-Length: "@ + decimal_text(
        byte_count(reply.body),
    ) + "\r\nConnection: close"@
}

/// An answer to an upload as it is sent: status line and headers, a blank line, the body.
pub open spec fn upload_response_text(reply: ResponseView) -> Seq<char> {
    upload_response_head(reply) + "\r\n\r\n"@ + reply.body
}

/// An answer to an upload as it is sent.
pub fn render_upload_response(reply: &Response) -> (text: String)
    ensures
        text@ == upload_response_text(reply@),
{
    let mut text = "HTTP/1.1 ".to_owned();
    text.append(reply.status.as_str());
    text.append("\r\nContent-Type: ");
    text.append(reply.content_type.as_str());
    text.append("\r\nAccess-Control-Allow-Origin: *\r\nContent-Length: ");
    push_decimal(&mut text, reply.body.as_str().as_bytes().len() as u64);
    text.append("\r\nConnection: close");
    text.append("\r\n\r\n");
    text.append(reply.body.as_str());
    text
}

/// A plain text as an answer.
pub fn plain_reply(status: &str, body: String) -> (reply: Response)
    ensures
        reply.status@ == status@,
        reply.body@ == body@,
        reply.content_type@ == "text/plain; charset=utf-8"@,
{
    Response {
        status: status.to_owned(),
        body,
        content_type: "text/plain; charset=utf-8".to_owned(),
    }
}

/// A GET request is routed by what stands before the first question mark of its target, with what
/// stands behind it as the query, whatever follows in the line and whatever lines follow.
pub proof fn requests_are_routed_by_their_path(
    path: Seq<char>,
    query: Seq<char>,
    version: Seq<char>,
    rest: Seq<char>,
)
    requires
        path.len() > 0,
        !path.contains('?'),
        forall|i: int| 0 <= i < path.len() ==> !is_space(#[trigger] path[i]),
        forall|i: int| 0 <= i < query.len() ==> !is_space(#[trigger] query[i]),
        !version.contains('\n'),
    ensures
        route_of(
            "GET"@ + seq![' '] + (path + seq!['?'] + query) + seq![' '] + version + seq![
                '\r',
                '\n',
            ] + rest,
        ) == route_to(path, Some(query)),
        route_of(
            "GET"@ + seq![' '] + path + seq![' '] + version + seq!['\r', '\n'] + rest,
        ) == route_to(path, None),
{
    let target = path + seq!['?'] + query;
    reveal_strlit("GET");
    assert forall|i: int| 0 <= i < target.len() implies !is_space(#[trigger] target[i]) by {
        if i < path.len() {
            assert(target[i] == path[i]);
        } else if i > path.len() {
            assert(target[i] == query[i - path.len() - 1]);
        }
    }
    lemma_request_line("GET"@, target, version, rest);
    lemma_request_line("GET"@, path, version, rest);
    let at = path.len() as int;
    lemma_find_char(target, '?', 0);
    lemma_find_char(path, '?', 0);
    assert forall|k: int| 0 <= k < at implies target[k] != '?' && path[k] != '?' by {
        assert(target[k] == path[k]);
        assert(path.contains(path[k]));
    }
    assert(target[at] == '?');
    assert(find_char(target, '?') == Some(at));
    assert(target.take(at) =~= path);
    assert(target.skip(at + 1) =~= query);
}

/// A request with any other method is refused, whatever it asks for; and one without a target asks
/// for the page.
pub proof fn only_get_is_allowed(
    method: Seq<char>,
    target: Seq<char>,
    version: Seq<char>,
    rest: Seq<char>,
)
    requires
        method.len() > 0,
        target.len() > 0,
        forall|i: int| 0 <= i < method.len() ==> !is_space(#[trigger] method[i]),
        forall|i: int| 0 <= i < target.len() ==> !is_space(#[trigger] target[i]),
        !version.contains('\n'),
    ensures
        method != "GET"@ ==> route_of(
            method + seq![' '] + target + seq![' '] + version + seq!['\r', '\n'] + rest,
        ) == RouteView::NotAllowed,
        route_of("GET"@ + seq!['\r', '\n'] + rest) == RouteView::Page(None),
{
    lemma_request_line(method, target, version, rest);
    reveal_strlit("GET");
    reveal_strlit("/");
    lines_end_at_line_feeds("GET"@, rest);
    words_stand_between_white_space("GET"@, ' ', Seq::empty());
    assert(words("GET"@) == seq!["GET"@]);
    assert(first_line("GET"@ + seq!['\r', '\n'] + rest) == "GET"@);
    lemma_find_char("/"@, '?', 0);
    each_path_has_its_route(Seq::empty(), None);
}

proof fn lemma_request_line(
    method: Seq<char>,
    target: Seq<char>,
    version: Seq<char>,
    rest: Seq<char>,
)
    requires
        method.len() > 0,
        target.len() > 0,
        forall|i: int| 0 <= i < method.len() ==> !is_space(#[trigger] method[i]),
        forall|i: int| 0 <= i < target.len() ==> !is_space(#[trigger] target[i]),
        !version.contains('\n'),
    ensures
        ({
            let line = method + seq![' '] + target + seq![' '] + version;
            &&& first_line(line + seq!['\r', '\n'] + rest) == line
            &&& method_of(line) == method
            &&& target_of(line) == target
        }),
{
    let line = method + seq![' '] + target + seq![' '] + version;
    let behind = target + seq![' '] + version;
    assert(line =~= method + seq![' '] + behind);
    words_stand_between_white_space(method, ' ', behind);
    words_stand_between_white_space(target, ' ', version);
    assert(words(line) == seq![method] + (seq![target] + words(version)));
    if line.contains('\n') {
        let k = line.index_of('\n');
        if k < method.len() {
            assert(line[k] == method[k]);
        } else if method.len() < k <= method.len() + target.len() {
            assert(line[k] == target[k - method.len() - 1]);
        } else if k > method.len() + target.len() + 1 {
            assert(version[k - method.len() - target.len() - 2] == '\n');
        }
    }
    lines_end_at_line_feeds(line, rest);
    assert(lines(line + seq!['\r', '\n'] + rest)[0] == line);
}

/// Each path leads where it is said to, with the query where one is read there. Every path that
/// begins as that of a download does, but for that of its status, is one; any further path is
/// unknown.
pub proof fn each_path_has_its_route(more: Seq<char>, query: Option<Seq<char>>)
    ensures
        route_to("/"@, query) == RouteView::Page(query),
        route_to("/health"@, query) == RouteView::Health,
        route_to("/files"@, query) == RouteView::Files,
        route_to("/open-folder"@, query) == RouteView::OpenFolder,
        route_to("/merge"@, query) == RouteView::Merge(query),
        route_to("/to-mp3"@, query) == RouteView::ToMp3(query),
        route_to("/download/status"@, query) == RouteView::Status(query),
        "/download"@ + more != "/download/status"@ ==> route_to("/download"@ + more, query)
            == RouteView::Download(query),
        !starts_with(more, "/download"@) && more != "/"@ && more != "/health"@ && more != "/files"@
            && more != "/open-folder"@ && more != "/merge"@ && more != "/to-mp3"@ ==> route_to(
            more,
            query,
        ) == RouteView::Unknown,
{
    reveal_strlit("/");
    reveal_strlit("/health");
    reveal_strlit("/files");
    reveal_strlit("/open-folder");
    reveal_strlit("/merge");
    reveal_strlit("/to-mp3");
    reveal_strlit("/download");
    reveal_strlit("/download/status");
    assert("/"@.len() == 1);
    assert("/health"@.len() == 7 && "/health"@[1] == 'h');
    assert("/files"@.len() == 6 && "/files"@[1] == 'f');
    assert("/open-folder"@.len() == 12 && "/open-folder"@[1] == 'o');
    assert("/merge"@.len() == 6 && "/merge"@[1] == 'm');
    assert("/to-mp3"@.len() == 7 && "/to-mp3"@[1] == 't');
    assert("/download/status"@.len() == 16 && "/download/status"@[1] == 'd');
    let path = "/download"@ + more;
    assert(path[1] == 'd');
    assert(path.subrange(0, 9) =~= "/download"@);
    assert("/download/status"@.subrange(0, 9) =~= "/download"@);
}

/// A message that begins with `OPTIONS ` is a preflight, one that begins with `POST /cookies` an
/// upload of cookies, and any other a request.
pub proof fn messages_are_told_apart_by_their_start(line: Seq<char>, rest: Seq<char>)
    requires
        !line.contains('\n'),
    ensures
        ({
            let message = line + seq!['\r', '\n'] + rest;
            &&& starts_with(line, "OPTIONS "@) ==> incoming_of(message) is Preflight
            &&& starts_with(line, "POST /cookies"@) ==> incoming_of(message) is Cookies
            &&& !starts_with(line, "OPTIONS "@) && !starts_with(line, "POST /cookies"@)
                ==> incoming_of(message) == IncomingView::Request(route_of(message))
        }),
{
    lines_end_at_line_feeds(line, rest);
    reveal_strlit("OPTIONS ");
    reveal_strlit("POST /cookies");
    if starts_with(line, "OPTIONS "@) && starts_with(line, "POST /cookies"@) {
        assert(line.subrange(0, 8)[0] == line[0]);
        assert(line.subrange(0, 13)[0] == line[0]);
    }
    assert(lines(line + seq!['\r', '\n'] + rest)[0] == line);
}

/// An answer begins with its status and its type, tells the number of bytes of its body, lets pages
/// of other origins read it and closes the connection, and ends, behind a blank line, with its body.
pub proof fn an_answer_is_head_and_body(reply: ResponseView)
    ensures
        is_answer(response_text(reply), reply),
        is_answer(upload_response_text(reply), reply),
{
    let start = "HTTP/1.1 "@ + reply.status + "\r\nContent-Type: "@ + reply.content_type;
    let size = decimal_text(byte_count(reply.body));
    lemma_header_literals();
    let crlf = "\r\n"@;
    let length = "Content-Length: "@ + size;
    let origin = "Access-Control-Allow-Origin: *"@;
    let close = "Connection: close"@;
    let end = crlf + (crlf + reply.body);
    lemma_four_pieces(crlf, "Content-Length: "@, size, crlf, origin, crlf, close);
    let head = response_head(reply);
    assert(head =~= start + (crlf + length + crlf + origin + crlf + close));
    let text = response_text(reply);
    assert(text =~= start + (crlf + length + crlf + origin + crlf + close) + end);
    lemma_is_answer(text, reply, start, length, origin, close);
    let upload_head = upload_response_head(reply);
    assert(upload_head =~= start + (crlf + origin + crlf + length + crlf + close));
    let upload = upload_response_text(reply);
    assert(upload =~= start + (crlf + origin + crlf + length + crlf + close) + end);
    lemma_is_answer(upload, reply, start, origin, length, close);
}

/// `text` is an answer as browsers understand it.
pub open spec fn is_answer(text: Seq<char>, reply: ResponseView) -> bool {
    &&& starts_with(
        text,
        "HTTP/1.1 "@ + reply.status + "\r\nContent-Type: "@ + reply.content_type + "\r\n"@,
    )
    &&& contains_text(
        text,
        "\r\n"@ + ("Content-Length: "@ + decimal_text(encode_utf8(reply.body).len())) + "\r\n"@,
    )
    &&& contains_text(text, "\r\n"@ + "Access-Control-Allow-Origin: *"@ + "\r\n"@)
    &&& contains_text(text, "\r\n"@ + "Connection: close"@ + "\r\n"@)
    &&& ends_with(text, "\r\n"@ + ("\r\n"@ + reply.body))
}

proof fn lemma_header_literals()
    ensures
        "\r\n\r\n"@ == "\r\n"@ + "\r\n"@,
        "\r\nContent-Length: "@ == "\r\n"@ + "Content-Length: "@,
        "\r\nAccess-Control-Allow-Origin: *\r\nConnection: close"@ == "\r\n"@
            + "Access-Control-Allow-Origin: *"@ + "\r\n"@ + "Connection: close"@,
        "\r\nAccess-Control-Allow-Origin: *\r\nContent-Length: "@ == "\r\n"@
            + "Access-Control-Allow-Origin: *"@ + "\r\n"@ + "Content-Length: "@,
        "\r\nConnection: close"@ == "\r\n"@ + "Connection: close"@,
{
    reveal_strlit("\r\n");
    reveal_strlit("\r\n\r\n");
    reveal_strlit("Content-Length: ");
    reveal_strlit("Connection: close");
    reveal_strlit("Access-Control-Allow-Origin: *");
    reveal_strlit("\r\nContent-Length: ");
    reveal_strlit("\r\nConnection: close");
    reveal_strlit("\r\nAccess-Control-Allow-Origin: *\r\nConnection: close");
    reveal_strlit("\r\nAccess-Control-Allow-Origin: *\r\nContent-Length: ");
    assert("\r\n\r\n"@ =~= "\r\n"@ + "\r\n"@);
    assert("\r\nContent-Length: "@ =~= "\r\n"@ + "Content-Length: "@);
    assert("\r\nConnection: close"@ =~= "\r\n"@ + "Connection: close"@);
    assert("\r\nAccess-Control-Allow-Origin: *\r\nConnection: close"@ =~= "\r\n"@
        + "Access-Control-Allow-Origin: *"@ + "\r\n"@ + "Connection: close"@);
    assert("\r\nAccess-Control-Allow-Origin: *\r\nContent-Length: "@ =~= "\r\n"@
        + "Access-Control-Allow-Origin: *"@ + "\r\n"@ + "Content-Length: "@);
}

proof fn lemma_four_pieces(
    a: Seq<char>,
    b: Seq<char>,
    c: Seq<char>,
    d: Seq<char>,
    e: Seq<char>,
    f: Seq<char>,
    g: Seq<char>,
)
    ensures
        a + b + c + (d + e + f + g) == a + (b + c) + d + e + f + g,
{
    assert(a + b + c + (d + e + f + g) =~= a + (b + c) + d + e + f + g);
}

/// A head of five lines and a body, in pieces.
proof fn lemma_is_answer(
    text: Seq<char>,
    reply: ResponseView,
    start: Seq<char>,
    third: Seq<char>,
    fourth: Seq<char>,
    last: Seq<char>,
)
    requires
        start == "HTTP/1.1 "@ + reply.status + "\r\nContent-Type: "@ + reply.content_type,
        text == start + ("\r\n"@ + third + "\r\n"@ + fourth + "\r\n"@ + last) + ("\r\n"@ + (
        "\r\n"@ + reply.body)),
    ensures
        starts_with(
            text,
            "HTTP/1.1 "@ + reply.status + "\r\nContent-Type: "@ + reply.content_type + "\r\n"@,
        ),
        contains_text(text, "\r\n"@ + third + "\r\n"@),
        contains_text(text, "\r\n"@ + fourth + "\r\n"@),
        contains_text(text, "\r\n"@ + last + "\r\n"@),
        ends_with(text, "\r\n"@ + ("\r\n"@ + reply.body)),
{
    let crlf = "\r\n"@;
    let end = crlf + reply.body;
    lemma_regrouped(start, crlf, third, fourth, last, end);
    lemma_stands_inside(start, crlf + third + crlf, fourth + crlf + last + crlf + end);
    lemma_stands_inside(start + crlf + third, crlf + fourth + crlf, last + crlf + end);
    lemma_stands_inside(start + crlf + third + crlf + fourth, crlf + last + crlf, end);
    let tail = crlf + end;
    assert(text.subrange(text.len() - tail.len(), text.len() as int) =~= tail);
    let more = third + crlf + fourth + crlf + last + crlf + end;
    assert((start + crlf + more).subrange(0, (start + crlf).len() as int) =~= start + crlf);
}

/// The same pieces, grouped otherwise.
proof fn lemma_regrouped(
    start: Seq<char>,
    crlf: Seq<char>,
    third: Seq<char>,
    fourth: Seq<char>,
    last: Seq<char>,
    end: Seq<char>,
)
    ensures
        ({
            let text = start + (crlf + third + crlf + fourth + crlf + last) + (crlf + end);
            &&& text == start + crlf + (third + crlf + fourth + crlf + last + crlf + end)
            &&& text == start + (crlf + third + crlf) + (fourth + crlf + last + crlf + end)
            &&& text == start + crlf + third + (crlf + fourth + crlf) + (last + crlf + end)
            &&& text == start + crlf + third + crlf + fourth + (crlf + last + crlf) + end
        }),
{
    let text = start + (crlf + third + crlf + fourth + crlf + last) + (crlf + end);
    assert(text =~= start + crlf + (third + crlf + fourth + crlf + last + crlf + end));
    assert(text =~= start + (crlf + third + crlf) + (fourth + crlf + last + crlf + end));
    assert(text =~= start + crlf + third + (crlf + fourth + crlf) + (last + crlf + end));
    assert(text =~= start + crlf + third + crlf + fourth + (crlf + last + crlf) + end);
}

/// An error report says that it is one, and what is wrong, under the status that it is sent with.
pub proof fn an_error_report_holds_its_message(
    status: Seq<char>,
    message: Seq<char>,
    fields: Map<Seq<char>, JsonView>,
)
    ensures
        error_fields(message) == map![
            "status"@ => JsonView::Text("error"@),
            "message"@ => JsonView::Text(message),
        ],
        json_reply(status, fields).status == status,
        json_reply(status, fields).body == json_text(fields),
        json_reply(status, fields).content_type == "application/json"@,
        page_reply(status, message).status == status,
        page_reply(status, message).body == message,
        page_reply(status, message).content_type == "text/html; charset=utf-8"@,
{
    assert(error_fields(message) =~= map![
        "status"@ => JsonView::Text("error"@),
        "message"@ => JsonView::Text(message),
    ]);
}

} // verus!
