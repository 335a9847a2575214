use downloader::cookies::{cookie_args, count_cookies, parse_content_length, save_failure};
use downloader::cookies::{saved_reply, set_cookies_file, CookieUpload};
use downloader::http::{html_reply, render_response};
use std::path::PathBuf;

#[test]
fn lengths_that_headers_state() {
    assert_eq!(parse_content_length("POST /cookies HTTP/1.1\r\nContent-Length: 12\r\nHost: x"), 12);
    assert_eq!(parse_content_length("content-LENGTH:7"), 7);
    assert_eq!(parse_content_length("Content-Length:  +8  :9"), 8);
    assert_eq!(parse_content_length("Content-Length: many\nContent-Length: 3"), 0);
    assert_eq!(parse_content_length("X-Content-Length: 3"), 0);
    assert_eq!(parse_content_length(""), 0);
    assert_eq!(parse_content_length("Content-Length: 99999999999999999999999"), 0);
}

#[test]
fn uploads_in_one_read() {
    let upload = CookieUpload::begin(b"POST /cookies HTTP/1.1\r\nContent-Length: 5\r\n\r\nhello");
    assert_eq!(upload.content_length, 5);
    assert!(!upload.wants_more());
    assert_eq!(upload.finish(), "hello");
}

#[test]
fn uploads_in_several_reads() {
    let mut upload = CookieUpload::begin(b"POST /cookies HTTP/1.1\r\nContent-Length: 11\r\n\r\nhel");
    assert!(upload.wants_more());
    upload.receive(b"lo wo");
    assert!(upload.wants_more());
    upload.receive(b"rld and more");
    assert!(!upload.wants_more());
    assert_eq!(upload.finish(), "hello world");
}

#[test]
fn uploads_that_state_no_length_are_kept_whole() {
    let upload = CookieUpload::begin(b"POST /cookies HTTP/1.1\r\n\r\nabc");
    assert!(!upload.wants_more());
    assert_eq!(upload.finish(), "abc");
    let upload = CookieUpload::begin(b"POST /cookies HTTP/1.1");
    assert_eq!(upload.finish(), "");
}

#[test]
fn uploads_that_are_no_text() {
    let upload = CookieUpload::begin(b"POST /cookies\r\nContent-Length: 3\r\n\r\na\xffb");
    assert_eq!(upload.finish(), "a\u{fffd}b");
}

#[test]
fn headers_of_an_answer_state_its_length() {
    let text = render_response(&html_reply("200 OK", "größer".to_string()));
    let head = text.split("\r\n\r\n").next().unwrap();
    assert_eq!(parse_content_length(head), "größer".len());
}

#[test]
fn cookies_are_counted_without_comments() {
    assert_eq!(count_cookies(""), 0);
    assert_eq!(count_cookies("# Netscape\n\n.a.b\tTRUE\r\n  # x\n   \n.c.d"), 2);
    assert_eq!(count_cookies("#HttpOnly_.a\n.b"), 1);
}

#[test]
fn saved_cookies_are_reported() {
    let reply = saved_reply(3, "/tmp/cookies.txt");
    assert_eq!(reply.status, "200 OK");
    assert_eq!(reply.body, "{\"cookies\":3,\"saved\":\"/tmp/cookies.txt\",\"status\":\"ok\"}");
    let reply = save_failure("disk full");
    assert_eq!(reply.status, "500 Internal Server Error");
    assert_eq!(reply.content_type, "text/plain; charset=utf-8");
    assert_eq!(reply.body, "save failed: disk full");
}

#[test]
fn uploaded_cookies_come_first() {
    let uploaded = Some("/u.txt".to_string());
    let browser = Some(" firefox ".to_string());
    let file = Some("/f.txt".to_string());
    let blank = Some("  ".to_string());
    assert_eq!(cookie_args(&uploaded, &browser, &file), vec!["--cookies", "/u.txt"]);
    assert_eq!(cookie_args(&None, &browser, &file), vec!["--cookies-from-browser", "firefox"]);
    assert_eq!(cookie_args(&None, &blank, &file), vec!["--cookies", "/f.txt"]);
    assert_eq!(cookie_args(&None, &None, &blank), Vec::<String>::new());
    assert_eq!(cookie_args(&None, &None, &None), Vec::<String>::new());
}

#[test]
fn cookies_file_is_set_and_cleared() {
    let mut current = None;
    set_cookies_file(&mut current, Some(PathBuf::from("a.txt")));
    assert_eq!(current, Some(PathBuf::from("a.txt")));
    set_cookies_file(&mut current, None);
    assert_eq!(current, None);
}

#[test]
fn uploads_do_not_depend_on_their_split() {
    let body = b"# c\n.a\tTRUE\n.b\tTRUE\n and more";
    for first in 0..body.len() {
        for step in 1..7 {
            let mut message = b"POST /cookies HTTP/1.1\r\nContent-Length: 21\r\n\r\n".to_vec();
            message.extend_from_slice(&body[..first]);
            let mut upload = CookieUpload::begin(&message);
            for chunk in body[first..].chunks(step) {
                if !upload.wants_more() {
                    break;
                }
                upload.receive(chunk);
            }
            assert_eq!(upload.finish().as_bytes(), &body[..21]);
        }
    }
}
