use downloader::cards::{card_query, data_type_of, order_cards, render_format_card_stream};
use downloader::cards::{render_format_list_empty, render_format_list_streams, FORMAT_FILTER_HTML};
use downloader::download::handle_download_request;
use downloader::html::html_escape;
use downloader::http::{parse_request, Route};
use downloader::jobs::JobTable;
use downloader::StreamInfo;

fn stream(itag: Option<&str>, bitrate: u64) -> StreamInfo {
    StreamInfo {
        itag: itag.map(str::to_string),
        container: "mp4".to_string(),
        quality: "1080p".to_string(),
        height: Some(1080),
        bitrate,
        stream_type: "video".to_string(),
        has_video: true,
        has_audio: false,
    }
}

#[test]
fn special_characters_are_escaped() {
    assert_eq!(html_escape("a<b>&\"c'd"), "a&lt;b&gt;&amp;&quot;c&#39;d");
    assert_eq!(html_escape("&amp;"), "&amp;amp;");
    assert_eq!(html_escape("größe"), "größe");
    assert_eq!(html_escape(""), "");
    for ch in html_escape("<script>alert('x\"')</script>").chars() {
        assert!(ch != '<' && ch != '>' && ch != '"' && ch != '\'');
    }
}

#[test]
fn a_card_as_it_is_written() {
    let card = render_format_card_stream(&stream(Some("137"), 2_500_000), "https://x/?v=a&b", "a b");
    assert_eq!(
        card,
        "<a class=\"format-card\" href=\"#\" role=\"button\" data-endpoint=\"/download?video=https%3A%2F%2Fx%2F%3Fv%3Da%26b&amp;itag=137&amp;container=mp4&amp;video_id=a+b\" data-itag=\"137\" data-stream-type=\"video\" data-height=\"1080\" data-bitrate=\"2500000\"><span class=\"format-itag\">137</span><span class=\"format-sep\">|</span><span class=\"format-quality\">1080p</span><span class=\"format-sep\">|</span><span class=\"format-codecs\">mp4</span><span class=\"format-sep\">|</span><span class=\"format-meta\">2.50 Mbps</span><span class=\"format-status\"></span></a>"
    );
}

#[test]
fn a_card_of_a_stream_without_details() {
    let bare = StreamInfo { height: None, stream_type: "AUDIO".to_string(), ..stream(None, 0) };
    let card = render_format_card_stream(&bare, "u", "i");
    assert!(card.contains("data-itag=\"\" data-stream-type=\"audio\" data-height=\"\" data-bitrate=\"0\""));
    assert!(card.contains("Bitrate unknown"));
    let muxed = StreamInfo { stream_type: "MUXED".to_string(), ..stream(None, 0) };
    assert!(render_format_card_stream(&muxed, "u", "i").contains("data-stream-type=\"muxed\""));
}

#[test]
fn kinds_that_the_script_knows() {
    assert_eq!(data_type_of("muxed"), "muxed");
    assert_eq!(data_type_of("video"), "video");
    assert_eq!(data_type_of("audio"), "audio");
    assert_eq!(data_type_of("anything"), "audio");
}

#[test]
fn a_clicked_card_downloads_its_format() {
    let url = "https://www.youtube.com/watch?v=a_b-c&t=1 #x ü%";
    let query = card_query(url, "248-sr", "we/bm", "a_b-c+");
    let request = format!("GET /download?{query} HTTP/1.1\r\nHost: localhost\r\n\r\n");
    let Route::Download(asked) = parse_request(&request) else {
        panic!("not a download");
    };
    assert_eq!(asked.as_deref(), Some(query.as_str()));
    let mut table = JobTable::new();
    let (_, started) = handle_download_request(&mut table, &asked);
    let started = started.unwrap().request;
    assert_eq!(started.video, url);
    assert_eq!(started.itag, "248-sr");
    assert_eq!(started.container, "we/bm");
    assert_eq!(started.video_id, "a_b-c+");
}

#[test]
fn the_best_stream_of_each_id_gets_a_card() {
    let streams = vec![
        stream(Some("140"), 128_000),
        stream(Some("137"), 2_000_000),
        stream(None, 9_000_000),
        stream(Some("137"), 2_500_000),
        stream(Some("137"), 2_500_000),
        stream(Some("136"), 2_500_000),
        stream(Some("18"), 128_000),
    ];
    assert_eq!(order_cards(&streams), vec![5, 3, 0, 6]);
}

#[test]
fn ids_are_ordered_as_texts() {
    let streams =
        vec![stream(Some("9"), 5), stream(Some("10"), 5), stream(Some("1"), 5), stream(Some("é"), 5)];
    assert_eq!(order_cards(&streams), vec![2, 1, 0, 3]);
}

#[test]
fn the_list_of_formats() {
    let streams = vec![stream(Some("1"), 1), stream(Some("2"), 2)];
    let list = render_format_list_streams(&streams, "u", "i");
    let first = render_format_card_stream(&streams[1], "u", "i");
    let second = render_format_card_stream(&streams[0], "u", "i");
    assert_eq!(
        list,
        format!("<div class=\"format-list\"><h3>Available formats</h3>{FORMAT_FILTER_HTML}<div class=\"format-grid\">{first}{second}</div></div>")
    );
    assert!(FORMAT_FILTER_HTML.starts_with("<div class=\"format-filter\" role=\"group\""));
    assert!(FORMAT_FILTER_HTML.contains("⬇ 1080p + 🎵 → MP4"));
}

#[test]
fn lists_without_formats() {
    let none = "<div class=\"format-list\"><h3>Available formats</h3><p class=\"muted\">No streams.</p></div>";
    assert_eq!(render_format_list_streams(&vec![], "u", "i"), none);
    assert_eq!(render_format_list_streams(&vec![stream(None, 5)], "u", "i"), none);
    let empty = |message: &str| {
        format!("<div class=\"format-list\"><h3>Available formats</h3><p class=\"muted\">{message}</p></div>")
    };
    assert_eq!(render_format_list_empty(&None), empty("No downloadable streams."));
    assert_eq!(
        render_format_list_empty(&Some("  ".to_string())),
        empty("Ensure yt-dlp.exe is in the same folder as downloader.exe.")
    );
    assert_eq!(
        render_format_list_empty(&Some(" a < b\n".to_string())),
        empty("Formats could not be loaded: a &lt; b")
    );
}

#[test]
fn escaping_can_be_undone() {
    let undo = |text: &str| {
        text.replace("&lt;", "<")
            .replace("&gt;", ">")
            .replace("&quot;", "\"")
            .replace("&#39;", "'")
            .replace("&amp;", "&")
    };
    for text in ["", "a<b>&\"c'd", "&amp;", "&lt;", "&&#39;'", "größe"] {
        assert_eq!(undo(&html_escape(text)), text);
        assert_eq!(html_escape(&format!("{text}<x")), format!("{}{}", html_escape(text), "&lt;x"));
    }
}
