use downloader::http::{bad_request, classify_connection, health_reply, html_reply, json_error};
use downloader::http::{not_found, parse_request, plain_reply, render_response};
use downloader::http::{render_upload_response, Incoming, Response, Route, PREFLIGHT_RESPONSE};

fn query_of(route: Route) -> Option<String> {
    match route {
        Route::Merge(query)
        | Route::ToMp3(query)
        | Route::Status(query)
        | Route::Download(query)
        | Route::Page(query) => query,
        _ => panic!("no query"),
    }
}

#[test]
fn requests_reach_their_handlers() {
    assert!(matches!(parse_request("GET /health HTTP/1.1\r\n\r\n"), Route::Health));
    assert!(matches!(parse_request("GET /files HTTP/1.1"), Route::Files));
    assert!(matches!(parse_request("GET /open-folder HTTP/1.1"), Route::OpenFolder));
    assert!(matches!(parse_request("GET /merge?files=a HTTP/1.1"), Route::Merge(_)));
    assert!(matches!(parse_request("GET /to-mp3 HTTP/1.1"), Route::ToMp3(None)));
    assert!(matches!(parse_request("GET /download/status?id=1 HTTP/1.1"), Route::Status(_)));
    assert!(matches!(parse_request("GET /download HTTP/1.1"), Route::Download(None)));
    assert!(matches!(parse_request("GET /downloads HTTP/1.1"), Route::Download(None)));
    assert!(matches!(parse_request("GET /download/status/x HTTP/1.1"), Route::Download(None)));
    assert!(matches!(parse_request("GET / HTTP/1.1"), Route::Page(None)));
    assert!(matches!(parse_request("GET"), Route::Page(None)));
    assert!(matches!(parse_request("GET /nothing HTTP/1.1"), Route::Unknown));
    assert!(matches!(parse_request("GET /health/ HTTP/1.1"), Route::Unknown));
}

#[test]
fn queries_keep_everything_behind_the_first_question_mark() {
    assert_eq!(query_of(parse_request("GET /?url=a?b HTTP/1.1")).as_deref(), Some("url=a?b"));
    assert_eq!(query_of(parse_request("GET /? HTTP/1.1")).as_deref(), Some(""));
    assert_eq!(query_of(parse_request("GET / HTTP/1.1")), None);
    let route = parse_request("GET\t/download?itag=137&x=%20 HTTP/1.1\r\nHost: x\r\n\r\n");
    assert_eq!(query_of(route).as_deref(), Some("itag=137&x=%20"));
}

#[test]
fn only_get_is_answered() {
    assert!(matches!(parse_request("POST / HTTP/1.1"), Route::NotAllowed));
    assert!(matches!(parse_request("get / HTTP/1.1"), Route::NotAllowed));
    assert!(matches!(parse_request(""), Route::NotAllowed));
    assert!(matches!(parse_request("\r\nGET / HTTP/1.1"), Route::NotAllowed));
}

#[test]
fn connections_are_told_apart() {
    assert!(matches!(classify_connection(b"OPTIONS /cookies HTTP/1.1\r\n\r\n"), Incoming::Preflight));
    assert!(matches!(classify_connection(b"POST /cookies HTTP/1.1\r\n\r\nx"), Incoming::Cookies));
    assert!(matches!(
        classify_connection(b"POST /other HTTP/1.1\r\n\r\n"),
        Incoming::Request(Route::NotAllowed)
    ));
    assert!(matches!(classify_connection(b"OPTIONS"), Incoming::Request(Route::NotAllowed)));
    assert!(matches!(
        classify_connection(b"GET /health HTTP/1.1\r\n\r\n"),
        Incoming::Request(Route::Health)
    ));
}

#[test]
fn bytes_that_are_no_text_are_replaced() {
    match classify_connection(b"GET /?url=\xff HTTP/1.1") {
        Incoming::Request(Route::Page(Some(query))) => assert_eq!(query, "url=\u{fffd}"),
        _ => panic!("not a page"),
    }
}

#[test]
fn error_reports_as_json() {
    let reply = json_error("x");
    assert_eq!(reply.status, "200 OK");
    assert_eq!(reply.content_type, "application/json");
    assert_eq!(reply.body, "{\"message\":\"x\",\"status\":\"error\"}");
    let reply = bad_request("Missing \"id\"");
    assert_eq!(reply.status, "400 Bad Request");
    assert_eq!(reply.body, "{\"message\":\"Missing \\\"id\\\"\",\"status\":\"error\"}");
    let reply = not_found("Job not found");
    assert_eq!(reply.status, "404 Not Found");
    assert_eq!(health_reply().body, "{\"status\":\"ok\"}");
}

#[test]
fn answers_as_they_are_sent() {
    let reply = html_reply("200 OK", "<p>é</p>".to_string());
    assert_eq!(
        render_response(&reply),
        "HTTP/1.1 200 OK\r\nContent-Type: text/html; charset=utf-8\r\nContent-Length: 9\r\nAccess-Control-Allow-Origin: *\r\nConnection: close\r\n\r\n<p>é</p>"
    );
    let reply = plain_reply("500 Internal Server Error", "save failed: no".to_string());
    assert_eq!(
        render_upload_response(&reply),
        "HTTP/1.1 500 Internal Server Error\r\nContent-Type: text/plain; charset=utf-8\r\nAccess-Control-Allow-Origin: *\r\nContent-Length: 15\r\nConnection: close\r\n\r\nsave failed: no"
    );
    let empty = Response {
        status: "204 No Content".to_string(),
        body: String::new(),
        content_type: "text/plain".to_string(),
    };
    assert!(render_response(&empty).contains("Content-Length: 0\r\n"));
}

#[test]
fn preflight_answer_allows_every_origin() {
    assert!(PREFLIGHT_RESPONSE.starts_with("HTTP/1.1 204 No Content\r\n"));
    assert!(PREFLIGHT_RESPONSE.contains("Access-Control-Allow-Origin: *\r\n"));
    assert!(PREFLIGHT_RESPONSE.ends_with("\r\n\r\n"));
}
