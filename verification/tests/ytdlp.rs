use downloader::files::VideoFormat;
use downloader::input::{is_video_id_char, normalise_input};
use downloader::locate::{first_hit, tool_names, tool_places, working_places, ExeSearch};
use downloader::locate::SearchStep;
use downloader::settings::{listen_address, listen_port, read_setting, update_is_skipped};
use downloader::ytdlp::{check_fetch_status, discovery_failure, download_args, download_ended};
use downloader::ytdlp::download_outcome;
use downloader::ytdlp::{downloaded_dir, info_args, info_outcome, missing_stream, plan_save};
use downloader::ytdlp::{prepare_format, tool_must_be_fetched, update_args, update_summary, SavePlan};
use downloader::{YoutubeDownloader, YtdlError};
use std::path::PathBuf;

fn text(value: &str) -> Option<String> {
    Some(value.to_string())
}

#[test]
fn inputs_are_made_urls() {
    assert_eq!(
        normalise_input(" dQw4w9WgXcQ\n"),
        "https://www.youtube.com/watch?v=dQw4w9WgXcQ"
    );
    assert_eq!(normalise_input("a-b_c-d_e-f"), "https://www.youtube.com/watch?v=a-b_c-d_e-f");
    assert_eq!(normalise_input(" https://youtu.be/x "), "https://youtu.be/x");
    assert_eq!(normalise_input("dQw4w9WgXc"), "dQw4w9WgXc");
    assert_eq!(normalise_input("dQw4w9WgXc!"), "dQw4w9WgXc!");
    assert_eq!(normalise_input("éééééa"), "éééééa");
    assert_eq!(normalise_input(""), "");
    let url = normalise_input("dQw4w9WgXcQ");
    assert_eq!(normalise_input(&url), url);
    assert!(is_video_id_char('-') && is_video_id_char('Z') && !is_video_id_char('é'));
}

#[test]
fn what_errors_say() {
    let shown = |error: YtdlError| error.message();
    assert_eq!(shown(YtdlError::RustyYtdl("x".to_string())), "rusty_ytdl error: x");
    assert_eq!(shown(YtdlError::Io("x".to_string())), "filesystem error: x");
    assert_eq!(
        shown(YtdlError::YtdlpNotFound(format!("{:?}", PathBuf::from("yt-dlp.exe")))),
        "yt-dlp not found at \"yt-dlp.exe\" (place yt-dlp.exe in same folder as downloader.exe)"
    );
    assert_eq!(shown(YtdlError::CliDiscovery("x".to_string())), "yt-dlp discovery/parse failed: x");
    assert_eq!(shown(YtdlError::FormatNotFound(137)), "requested format with itag 137 not found");
    assert_eq!(
        shown(YtdlError::YtdlpCliFailed { code: Some(-1), message: "m".to_string() }),
        format!("yt-dlp exited with status {:?}: m", Some(-1))
    );
    assert_eq!(
        shown(YtdlError::YtdlpCliFailed { code: None, message: "m".to_string() }),
        "yt-dlp exited with status None: m"
    );
    assert_eq!(shown(YtdlError::CliSpawn("x".to_string())), "failed to spawn yt-dlp: x");
    assert_eq!(shown(YtdlError::MissingOutput("\"p\"".to_string())), "expected output missing at \"p\"");
}

#[test]
fn a_downloader_needs_its_tool() {
    let downloader = YoutubeDownloader::new(Some(PathBuf::from("/t")));
    let downloader = downloader.unwrap_or_else(|_| panic!("refused"));
    assert_eq!(downloader.download_dir(), "downloaded");
    assert_eq!(downloader.ytdlp_path(), &PathBuf::from("/t"));
    let copy = downloader.clone();
    assert_eq!(copy.download_dir(), "downloaded");
    assert_eq!(copy.ytdlp_path(), downloader.ytdlp_path());
    let refused = YoutubeDownloader::new(None).err().unwrap();
    assert!(matches!(refused, YtdlError::YtdlpNotFound(path) if path == "\"yt-dlp.exe\""));
    assert_eq!(downloaded_dir(), "downloaded");
}

#[test]
fn fetching_the_tool() {
    assert!(matches!(tool_must_be_fetched(true, false), Ok(false)));
    assert!(matches!(tool_must_be_fetched(false, true), Ok(true)));
    assert!(matches!(tool_must_be_fetched(false, false), Err(YtdlError::YtdlpNotFound(_))));
    let failure = discovery_failure("download request", "no route");
    assert_eq!(failure.message(), "yt-dlp discovery/parse failed: download request: no route");
    assert!(check_fetch_status(true, "200 OK").is_ok());
    assert_eq!(
        check_fetch_status(false, "404 Not Found").err().unwrap().message(),
        "yt-dlp discovery/parse failed: download failed: HTTP 404 Not Found"
    );
}

#[test]
fn arguments_for_the_tool() {
    let cookies = vec!["--cookies".to_string(), "c.txt".to_string()];
    assert_eq!(
        info_args("dQw4w9WgXcQ", &cookies),
        vec![
            "-j",
            "--no-playlist",
            "--no-download",
            "https://www.youtube.com/watch?v=dQw4w9WgXcQ",
            "--cookies",
            "c.txt"
        ]
    );
    assert_eq!(
        download_args("https://x/y", "137", "/o.mp4", &vec![]),
        vec!["-f", "137", "-o", "/o.mp4", "--newline", "--no-playlist", "https://x/y"]
    );
    assert_eq!(update_args(), vec!["--update-to", "nightly"]);
    assert_eq!(missing_stream("stdout").message(), "failed to spawn yt-dlp: missing stdout");
}

#[test]
fn descriptions_from_the_tool() {
    assert_eq!(info_outcome(true, Some(0), b" {}\n", b"warning").unwrap(), "{}");
    let failure = |stdout: &[u8], stderr: &[u8]| {
        match info_outcome(false, Some(1), stdout, stderr) {
            Err(YtdlError::YtdlpCliFailed { code: Some(1), message }) => message,
            _ => panic!("no failure"),
        }
    };
    assert_eq!(failure(b"out", b" ERROR: gone \n"), "ERROR: gone");
    assert_eq!(failure(b" out ", b" "), "status Some(1) stdout: out");
    assert_eq!(failure(b"", b""), "status Some(1) (no stderr)");
    assert_eq!(failure(b"", b"\xff"), "\u{fffd}");
}

#[test]
fn ends_of_downloads() {
    assert!(matches!(download_outcome(true, Some(0), "", true, "\"p\""), Ok(100)));
    assert!(matches!(
        download_outcome(true, Some(0), "", false, "\"p\""),
        Err(YtdlError::MissingOutput(path)) if path == "\"p\""
    ));
    assert!(matches!(
        download_ended(false, Some(1), b" caf\xc3\xa9 \xff\n", true, "\"p\""),
        Err(YtdlError::YtdlpCliFailed { code: Some(1), message }) if message == "café \u{fffd}"
    ));
    assert!(matches!(download_ended(true, Some(0), b"warning", true, "\"p\""), Ok(100)));
    assert!(matches!(
        download_ended(true, Some(0), b"", false, "\"p\""),
        Err(YtdlError::MissingOutput(_))
    ));
    assert!(matches!(
        download_outcome(false, None, " bad \n", true, "\"p\""),
        Err(YtdlError::YtdlpCliFailed { code: None, message }) if message == "bad"
    ));
}

#[test]
fn a_format_is_prepared_for_saving() {
    let format = |itag: u64, container: &str, has_video: bool| VideoFormat {
        itag,
        container: container.to_string(),
        has_video,
        has_audio: true,
    };
    let formats = vec![format(18, "mp4", true), format(140, "mp4", false), format(140, "webm", false)];
    let prepared = prepare_format(&formats, "a:b", 140).ok().unwrap();
    assert_eq!(prepared.index, 1);
    assert_eq!(prepared.file_name, "a_b_itag140.m4a");
    assert!(matches!(prepare_format(&formats, "a", 5), Err(YtdlError::FormatNotFound(5))));
    assert!(plan_save(false, false) == SavePlan::Fetch);
    assert!(plan_save(false, true) == SavePlan::Fetch);
    assert!(plan_save(true, false) == SavePlan::Keep);
    assert!(plan_save(true, true) == SavePlan::Replace);
}

#[test]
fn updates_are_summed_up() {
    assert_eq!(update_summary(b"Current\n  Updated to nightly \n\n"), "Updated to nightly");
    assert_eq!(update_summary(b""), "");
    assert_eq!(update_summary(b" \n\xff"), "\u{fffd}");
    assert!(update_is_skipped(&text("1")));
    assert!(!update_is_skipped(&text(" ")));
    assert!(!update_is_skipped(&None));
}

#[test]
fn settings_from_the_environment() {
    assert_eq!(listen_port(&None), 8080);
    assert_eq!(listen_port(&text("9090")), 9090);
    assert_eq!(listen_port(&text("+80")), 80);
    assert_eq!(listen_port(&text("65536")), 8080);
    assert_eq!(listen_port(&text(" 80")), 8080);
    assert_eq!(listen_port(&text("")), 8080);
    assert_eq!(listen_address(8080), "127.0.0.1:8080");
    assert_eq!(read_setting(&text(" x ")).as_deref(), Some("x"));
    assert_eq!(read_setting(&text("\t")), None);
    assert_eq!(read_setting(&None), None);
}

#[test]
fn the_tool_is_searched_upward() {
    assert_eq!(working_places(), vec!["yt-dlp.exe", "ytdlp/yt-dlp.exe"]);
    assert_eq!(first_hit(&vec![false, true]), Some(1));
    assert!(ExeSearch::begin(true) == SearchStep::Found);
    assert!(ExeSearch::begin(false) == SearchStep::Climb);
    let mut search = ExeSearch::new();
    assert!(ExeSearch::leaves_file(true, true));
    assert!(!ExeSearch::leaves_file(true, false));
    assert!(!ExeSearch::leaves_file(false, true));
    for _ in 0..9 {
        assert!(search.looked_at(false, true) == SearchStep::Climb);
    }
    assert!(search.looked_at(false, true) == SearchStep::GiveUp);
    let mut search = ExeSearch::new();
    assert!(search.looked_at(false, false) == SearchStep::GiveUp);
    let mut search = ExeSearch::new();
    assert!(search.looked_at(true, false) == SearchStep::Found);
}

#[test]
fn places_where_tools_are() {
    let names = tool_names("ffmpeg");
    assert_eq!(names, vec!["ffmpeg.exe", "ffmpeg"]);
    let places: Vec<(bool, String)> = tool_places(&names, true, true)
        .into_iter()
        .map(|place| (place.beside_program, place.name))
        .collect();
    assert_eq!(
        places,
        vec![
            (false, "ffmpeg.exe".to_string()),
            (false, "ffmpeg".to_string()),
            (true, "ffmpeg.exe".to_string()),
            (true, "ffmpeg".to_string())
        ]
    );
    assert_eq!(tool_places(&names, false, true).len(), 2);
    assert!(tool_places(&names, false, false).is_empty());
    assert_eq!(first_hit(&vec![false, true, true]), Some(1));
    assert_eq!(first_hit(&vec![false, false]), None);
}
