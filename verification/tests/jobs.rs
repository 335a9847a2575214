use downloader::download::{finish_download, handle_download_request};
use downloader::jobs::{job_id, parse_job_id, DownloadJobStatus, JobTable};

fn ask(table: &JobTable, number: u64) -> String {
    table.handle_download_status(&Some(format!("id={}", job_id(number)))).body
}

#[test]
fn ids_are_sixteen_hexadecimal_digits() {
    assert_eq!(job_id(1), "0000000000000001");
    assert_eq!(job_id(255), "00000000000000ff");
    assert_eq!(job_id(u64::MAX), "ffffffffffffffff");
    for number in [0, 1, 15, 16, 0x1234_5678_9abc_def0, u64::MAX] {
        assert_eq!(parse_job_id(&job_id(number)), Some(number));
    }
    assert_eq!(parse_job_id("1"), None);
    assert_eq!(parse_job_id("00000000000000FF"), None);
    assert_eq!(parse_job_id("00000000000000001"), None);
    assert_eq!(parse_job_id("000000000000000g"), None);
}

#[test]
fn names_of_states() {
    assert_eq!(DownloadJobStatus::Running.as_str(), "running");
    assert_eq!(DownloadJobStatus::Completed.as_str(), "completed");
    assert_eq!(DownloadJobStatus::Failed.as_str(), "failed");
}

#[test]
fn a_job_from_start_to_end() {
    let mut table = JobTable::new();
    let number = table.start();
    assert_eq!(number, 1);
    assert_eq!(
        ask(&table, number),
        "{\"error\":null,\"message\":null,\"path\":null,\"percent\":0,\"status\":\"running\"}"
    );
    table.set_percent(number, 42);
    assert!(ask(&table, number).contains("\"percent\":42"));
    finish_download(&mut table, number, "137", Ok("a_itag137.mp4".to_string()));
    assert_eq!(
        ask(&table, number),
        "{\"error\":null,\"message\":\"Saved itag 137 to a_itag137.mp4\",\"path\":\"a_itag137.mp4\",\"percent\":100,\"status\":\"completed\"}"
    );
}

#[test]
fn a_job_that_fails() {
    let mut table = JobTable::new();
    let first = table.start();
    let second = table.start();
    assert_eq!(second, 2);
    table.set_percent(first, 10);
    finish_download(&mut table, first, "251", Err("gone".to_string()));
    assert_eq!(
        ask(&table, first),
        "{\"error\":\"gone\",\"message\":null,\"path\":null,\"percent\":10,\"status\":\"failed\"}"
    );
    assert!(ask(&table, second).contains("\"status\":\"running\""));
}

#[test]
fn jobs_that_are_not_there() {
    let mut table = JobTable::new();
    table.set_percent(7, 3);
    table.set_job_failed(7, "x".to_string());
    let reply = table.handle_download_status(&Some(format!("id={}", job_id(7))));
    assert_eq!(reply.status, "404 Not Found");
    assert_eq!(reply.body, "{\"message\":\"Job not found\",\"status\":\"error\"}");
    assert_eq!(table.handle_download_status(&Some("id=nonsense".to_string())).status, "404 Not Found");
    let reply = table.handle_download_status(&None);
    assert_eq!(reply.status, "400 Bad Request");
    assert_eq!(reply.body, "{\"message\":\"Missing id\",\"status\":\"error\"}");
    assert_eq!(table.handle_download_status(&Some("x=1".to_string())).status, "400 Bad Request");
}

#[test]
fn the_first_id_of_a_query_counts() {
    let mut table = JobTable::new();
    let number = table.start();
    let query = format!("id={}&id=other", job_id(number));
    assert_eq!(table.handle_download_status(&Some(query)).status, "200 OK");
    let query = format!("id=other&id={}", job_id(number));
    assert_eq!(table.handle_download_status(&Some(query)).status, "404 Not Found");
}

#[test]
fn numbers_of_jobs_start_again_at_the_end() {
    let mut table = JobTable::new();
    table.next = u64::MAX;
    assert_eq!(table.start(), u64::MAX);
    assert_eq!(table.start(), 0);
}

#[test]
fn complete_download_requests_are_started() {
    let mut table = JobTable::new();
    let query = "video=https%3A%2F%2Fx%2F%3Fv%3D1&itag=248-sr&container=webm&video_id=a+b";
    let (reply, started) = handle_download_request(&mut table, &Some(query.to_string()));
    assert_eq!(reply.status, "200 OK");
    assert_eq!(
        reply.body,
        "{\"itag\":\"248-sr\",\"jobId\":\"0000000000000001\",\"status\":\"started\"}"
    );
    let started = started.unwrap();
    assert_eq!(started.number, 1);
    assert_eq!(started.request.video, "https://x/?v=1");
    assert_eq!(started.request.itag, "248-sr");
    assert_eq!(started.request.container, "webm");
    assert_eq!(started.request.video_id, "a b");
    assert!(ask(&table, 1).contains("\"status\":\"running\""));
}

#[test]
fn incomplete_download_requests_are_refused() {
    let mut table = JobTable::new();
    for (query, message) in [
        (None, "Missing query"),
        (Some(""), "Missing video"),
        (Some("itag=1&container=a&video_id=b"), "Missing video"),
        (Some("video=v&container=a&video_id=b"), "Missing itag"),
        (Some("video=v&itag=&container=a&video_id=b"), "Missing itag"),
        (Some("video=v&itag=1&video_id=b"), "Missing container/video_id"),
        (Some("video=v&itag=1&container=a"), "Missing container/video_id"),
    ] {
        let (reply, started) = handle_download_request(&mut table, &query.map(str::to_string));
        assert_eq!(reply.status, "400 Bad Request");
        assert_eq!(reply.body, format!("{{\"message\":\"{message}\",\"status\":\"error\"}}"));
        assert!(started.is_none());
    }
    assert_eq!(table.next, 1);
    assert!(table.jobs.is_empty());
}

#[test]
fn the_last_value_of_a_download_request_counts() {
    let mut table = JobTable::new();
    let query = "video=a&video=b&itag=1&itag=2&itag=&container=c&container=&video_id=x&video_id=y";
    let (_, started) = handle_download_request(&mut table, &Some(query.to_string()));
    let request = started.unwrap().request;
    assert_eq!(request.video, "b");
    assert_eq!(request.itag, "2");
    assert_eq!(request.container, "");
    assert_eq!(request.video_id, "y");
}

#[test]
fn started_jobs_get_new_numbers() {
    let mut table = JobTable::new();
    for expected in 1..=20 {
        assert!(!table.jobs.contains_key(&table.next));
        assert_eq!(table.start(), expected);
        table.set_percent(expected, expected as u8);
    }
    for number in 1..=20 {
        assert!(ask(&table, number).contains(&format!("\"percent\":{number},")));
    }
}
