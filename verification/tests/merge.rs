use downloader::jobs::{job_id, JobTable};
use downloader::merge::{check_files, claim_inputs, ffmpeg_stderr_tail, find_spare_audio};
use downloader::merge::{finish_merge, merge_args, merge_selection, needs_second_look, next_look};
use downloader::merge::plan_merge;
use downloader::merge::{read_progress_time, running_percent, split_time, start_merge};
use downloader::merge::{MergeAction, MergeEnd, MergeEvent, MergeRequest};

fn names(list: &[&str]) -> Vec<String> {
    list.iter().map(|name| name.to_string()).collect()
}

fn refusal(message: &str) -> String {
    format!("{{\"message\":\"{message}\",\"status\":\"error\"}}")
}

fn state(table: &JobTable, number: u64) -> String {
    table.handle_download_status(&Some(format!("id={}", job_id(number)))).body
}

#[test]
fn files_selected_for_a_merge() {
    let files = merge_selection(&Some("files=a.mp4&x=1&files=&files=b%20c.webm".to_string()));
    assert!(matches!(files, Ok(list) if list == names(&["a.mp4", "b c.webm"])));
    let reply = merge_selection(&None).err().unwrap();
    assert_eq!(reply.status, "200 OK");
    assert_eq!(reply.body, refusal("Missing files"));
    let reply = merge_selection(&Some("files=a.mp4".to_string())).err().unwrap();
    assert_eq!(
        reply.body,
        refusal("Select at least two files (one video and one audio) to merge.")
    );
}

#[test]
fn files_that_cannot_be_merged() {
    let files = names(&["a.mp4", "b.webm"]);
    assert!(check_files(&files, &vec![true, true]).is_none());
    let reply = check_files(&files, &vec![true, false]).unwrap();
    assert_eq!(reply.body, refusal("File not found: b.webm"));
    let reply = check_files(&names(&["a.mp4", "../b"]), &vec![false, true]).unwrap();
    assert_eq!(reply.body, refusal("File not found: a.mp4"));
    let reply = check_files(&names(&["../a", "b"]), &vec![true, false]).unwrap();
    assert_eq!(reply.body, refusal("Invalid file name: ../a"));
}

#[test]
fn inputs_are_claimed_in_any_order() {
    assert_eq!(claim_inputs(&vec![(true, false), (false, true)]), (Some(0), Some(1)));
    assert_eq!(claim_inputs(&vec![(false, true), (true, false)]), (Some(1), Some(0)));
    assert_eq!(claim_inputs(&vec![(true, true), (true, true)]), (Some(0), Some(1)));
    assert_eq!(claim_inputs(&vec![(true, true), (true, false)]), (Some(0), None));
    assert_eq!(claim_inputs(&vec![(false, true), (true, true)]), (Some(1), Some(0)));
    assert_eq!(claim_inputs(&vec![(false, false), (false, true)]), (None, Some(1)));
    assert_eq!(claim_inputs(&vec![]), (None, None));
}

#[test]
fn a_second_look_for_audio() {
    let files = names(&["a", "b", "a"]);
    assert!(needs_second_look(&vec![(true, true), (false, false)]));
    assert!(!needs_second_look(&vec![(true, true), (false, true)]));
    assert_eq!(find_spare_audio(&files, Some(0), &vec![true, false, true]), None);
    assert_eq!(find_spare_audio(&files, Some(0), &vec![true, true, true]), Some(1));
    assert_eq!(find_spare_audio(&files, None, &vec![true, true, true]), Some(0));
    assert_eq!(find_spare_audio(&files, Some(0), &vec![true, false, false]), None);
}

#[test]
fn files_are_looked_at_until_one_has_audio() {
    let files = names(&["a", "v", "v", "b"]);
    assert_eq!(next_look(&files, Some(1), &vec![]), Some(0));
    assert_eq!(next_look(&files, Some(1), &vec![false]), Some(3));
    assert_eq!(next_look(&files, Some(1), &vec![true]), None);
    assert_eq!(next_look(&files, Some(1), &vec![false, false, false, false]), None);
    assert_eq!(next_look(&files, None, &vec![false]), Some(1));
    assert_eq!(next_look(&names(&["v", "v"]), Some(0), &vec![]), None);
}

#[test]
fn progress_never_reaches_one_hundred_while_merging() {
    let mut table = JobTable::new();
    let (number, _) = start_merge(&mut table);
    for percent in [-3, 50, 100, 250] {
        table.set_percent(number, running_percent(percent));
        assert!(table.jobs[&number].percent <= 99);
    }
    finish_merge(&mut table, number, "x", MergeEnd::NoOutput);
    assert!(state(&table, number).contains("\"percent\":99,\"status\":\"failed\""));
}

#[test]
fn a_merge_is_planned() {
    let files = names(&["x_itag251.webm", "x_itag137.mp4"]);
    let plan = plan_merge(&files, &vec![(false, true), (true, false)], &vec![false, false]);
    let plan = plan.ok().unwrap();
    assert_eq!((plan.video, plan.audio), (1, 0));
    assert_eq!(plan.output, "x_telegram.mp4");
    let plan = plan_merge(&files, &vec![(true, false), (false, false)], &vec![false, true]);
    let plan = plan.ok().unwrap();
    assert_eq!((plan.video, plan.audio), (0, 1));
    let reply = plan_merge(&files, &vec![(true, true), (true, false)], &vec![true, false]);
    assert_eq!(
        reply.err().unwrap().body,
        refusal("Select one file that has video and one that has audio (e.g. an itag137 .mp4 video and an itag251 .webm audio).")
    );
    assert!(plan_merge(&files, &vec![(false, true), (false, true)], &vec![true, true]).is_err());
}

#[test]
fn arguments_of_a_merge() {
    assert_eq!(
        merge_args("v", "a", "o").join(" "),
        "-y -i v -i a -map 0:v:0 -map 1:a:0 -c:v libx264 -profile:v high -pix_fmt yuv420p -crf 23 -preset fast -c:a aac -b:a 128k -movflags +faststart -progress pipe:1 -nostats o"
    );
}

#[test]
fn progress_of_a_merge() {
    assert_eq!(read_progress_time(" out_time=00:01:02.5\n").as_deref(), Some("00:01:02.5"));
    assert_eq!(read_progress_time("out_time_ms=5"), None);
    assert_eq!(read_progress_time("frame=1"), None);
    let fields = split_time(" 00 : 01:02.500000:9 ").unwrap();
    assert_eq!(fields, ("00".to_string(), "01".to_string(), "02.500000".to_string()));
    assert_eq!(split_time("N/A"), None);
    assert_eq!(split_time("1:2"), None);
    assert_eq!(running_percent(-5), 0);
    assert_eq!(running_percent(42), 42);
    assert_eq!(running_percent(99), 99);
    assert_eq!(running_percent(100), 99);
    assert_eq!(running_percent(i64::MAX), 99);
}

#[test]
fn the_end_of_the_error_output() {
    assert_eq!(ffmpeg_stderr_tail(b""), "");
    assert_eq!(ffmpeg_stderr_tail(b"one\r\n\n  \n two \n"), "one |  two ");
    assert_eq!(
        ffmpeg_stderr_tail(b"1\n2\n3\n\n4\n5\n6\n7\n8"),
        "3 | 4 | 5 | 6 | 7 | 8"
    );
    assert_eq!(ffmpeg_stderr_tail(b"a\xff"), "a\u{fffd}");
}

#[test]
fn a_merge_from_start_to_end() {
    let mut table = JobTable::new();
    let (number, reply) = start_merge(&mut table);
    assert_eq!(reply.body, "{\"jobId\":\"0000000000000001\",\"status\":\"started\"}");
    finish_merge(&mut table, number, "x_telegram.mp4", MergeEnd::Success);
    assert_eq!(
        state(&table, number),
        "{\"error\":null,\"message\":\"Merged into x_telegram.mp4\",\"path\":\"x_telegram.mp4\",\"percent\":100,\"status\":\"completed\"}"
    );
}

#[test]
fn merges_that_fail() {
    let mut table = JobTable::new();
    let (first, _) = start_merge(&mut table);
    let (second, _) = start_merge(&mut table);
    finish_merge(&mut table, first, "x", MergeEnd::Failed(b"bad\ninput".to_vec()));
    assert!(state(&table, first).contains("\"error\":\"ffmpeg failed: bad | input\""));
    finish_merge(&mut table, second, "x", MergeEnd::Lost("io".to_string()));
    assert!(state(&table, second).contains("\"error\":\"ffmpeg wait failed: io\""));
    let (third, _) = start_merge(&mut table);
    let (fourth, _) = start_merge(&mut table);
    let end = MergeEnd::NotRun("ffmpeg".to_string(), "not found".to_string());
    finish_merge(&mut table, third, "x", end);
    assert!(state(&table, third).contains("\"error\":\"Could not run ffmpeg (ffmpeg): not found. Install FFmpeg and add it to PATH, or place ffmpeg.exe next to downloader.exe.\""));
    finish_merge(&mut table, fourth, "x", MergeEnd::NoOutput);
    assert!(state(&table, fourth).contains("\"error\":\"ffmpeg: missing stdout\""));
}

fn asked(query: &str) -> MergeEvent {
    MergeEvent::Asked(Some(query.to_string()))
}

#[test]
fn a_merge_request_from_query_to_job() {
    let mut table = JobTable::new();
    let request = MergeRequest::new();
    let (request, action) =
        request.step(&mut table, asked("files=x_itag251.webm&files=x_itag137.mp4"));
    assert!(matches!(action, MergeAction::Check));
    assert_eq!(request.files(), &names(&["x_itag251.webm", "x_itag137.mp4"]));
    let (request, action) = request.step(&mut table, MergeEvent::Checked(vec![true, true]));
    assert!(matches!(action, MergeAction::Probe));
    let probes = vec![(false, true), (true, false)];
    let (request, action) = request.step(&mut table, MergeEvent::Probed(probes));
    assert!(matches!(action, MergeAction::Measure(1)));
    assert!(table.jobs.is_empty());
    let (_, action) = request.step(&mut table, MergeEvent::Measured);
    let MergeAction::Run(number, plan, reply) = action else {
        panic!("not run");
    };
    assert_eq!((number, plan.video, plan.audio), (1, 1, 0));
    assert_eq!(plan.output, "x_telegram.mp4");
    assert_eq!(reply.body, "{\"jobId\":\"0000000000000001\",\"status\":\"started\"}");
    assert!(state(&table, 1).contains("\"status\":\"running\""));
}

#[test]
fn a_merge_request_with_a_second_look() {
    let mut table = JobTable::new();
    let (request, _) = MergeRequest::new().step(&mut table, asked("files=v&files=v&files=a&files=b"));
    let (request, _) = request.step(&mut table, MergeEvent::Checked(vec![true; 4]));
    let probes = vec![(true, false), (false, false), (false, false), (false, false)];
    let (request, action) = request.step(&mut table, MergeEvent::Probed(probes));
    assert!(matches!(action, MergeAction::Look(2)));
    let (request, action) = request.step(&mut table, MergeEvent::Looked(false));
    assert!(matches!(action, MergeAction::Look(3)));
    let (request, action) = request.step(&mut table, MergeEvent::Looked(true));
    assert!(matches!(action, MergeAction::Measure(0)));
    let (_, action) = request.step(&mut table, MergeEvent::Measured);
    assert!(matches!(action, MergeAction::Run(1, plan, _) if plan.video == 0 && plan.audio == 3));
}

#[test]
fn refused_merges_leave_no_job() {
    let mut table = JobTable::new();
    let (_, action) = MergeRequest::new().step(&mut table, MergeEvent::Asked(None));
    assert!(matches!(action, MergeAction::Refuse(reply) if reply.body == refusal("Missing files")));
    let (request, _) = MergeRequest::new().step(&mut table, asked("files=a&files=b"));
    let (_, action) = request.step(&mut table, MergeEvent::Checked(vec![true, false]));
    assert!(matches!(action, MergeAction::Refuse(reply) if reply.body == refusal("File not found: b")));
    let (request, _) = MergeRequest::new().step(&mut table, asked("files=a&files=b"));
    let (request, _) = request.step(&mut table, MergeEvent::Checked(vec![true, true]));
    let (request, action) =
        request.step(&mut table, MergeEvent::Probed(vec![(true, true), (true, false)]));
    assert!(matches!(action, MergeAction::Look(1)));
    let (_, action) = request.step(&mut table, MergeEvent::Looked(false));
    assert!(matches!(action, MergeAction::Refuse(_)));
    assert!(table.jobs.is_empty());
    assert_eq!(table.next, 1);
}
