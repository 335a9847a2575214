use downloader::page::{method_refused, page_missing, page_response, render_page};
use downloader::page::{render_video_info, select_best_thumbnail, start_page, PageContent};
use downloader::page::{Thumbnail, VideoDetails, EXPLORER_HTML};
use downloader::StreamInfo;

const TEMPLATE: &str = "<input value=\"{{ESCAPED_INPUT}}\">{{RESULT_SECTION}}<!--{{ESCAPED_INPUT}}-->";
const HINT: &str = "<div class=\"placeholder\">Paste a YouTube URL or 11-character video ID above and click “Check video”.</div>";

fn thumbnail(width: u64, height: u64, url: &str) -> Thumbnail {
    Thumbnail { width, height, url: url.to_string() }
}

fn details() -> VideoDetails {
    VideoDetails {
        video_id: "id1".to_string(),
        video_url: "https://x/?v=id1&t=2".to_string(),
        title: "A <b> & c".to_string(),
        length_seconds: "75".to_string(),
        view_count: "1234567".to_string(),
        publish_date: "2020-01-01".to_string(),
        author: Some("O'Neil".to_string()),
        owner_channel_name: "Channel".to_string(),
        thumbnails: vec![thumbnail(1, 1, "s"), thumbnail(10, 10, "l&1"), thumbnail(2, 2, "m")],
    }
}

fn stream() -> StreamInfo {
    StreamInfo {
        itag: Some("137".to_string()),
        container: "mp4".to_string(),
        quality: "1080p".to_string(),
        height: Some(1080),
        bitrate: 1,
        stream_type: "video".to_string(),
        has_video: true,
        has_audio: false,
    }
}

#[test]
fn the_largest_thumbnail_is_taken() {
    assert_eq!(select_best_thumbnail(&details()), Some(1));
    let mut info = details();
    info.thumbnails.clear();
    assert_eq!(select_best_thumbnail(&info), None);
    info.thumbnails = vec![thumbnail(2, 3, "a"), thumbnail(3, 2, "b"), thumbnail(1, 1, "c")];
    assert_eq!(select_best_thumbnail(&info), Some(1));
    info.thumbnails = vec![
        thumbnail(u64::MAX, u64::MAX, "a"),
        thumbnail(u64::MAX, 2, "b"),
        thumbnail(u64::MAX, 1, "c"),
        thumbnail(5, 5, "d"),
    ];
    assert_eq!(select_best_thumbnail(&info), Some(2));
}

#[test]
fn a_video_as_it_is_shown() {
    let text = render_video_info(&details(), &None, &None);
    assert_eq!(
        text,
        "<div class=\"card\"><div class=\"card-head\"><div><a href=\"https://x/?v=id1&amp;t=2\" target=\"_blank\" rel=\"noopener\"><img src=\"l&amp;1\" alt=\"Thumbnail\" loading=\"lazy\" /></a></div><div class=\"meta\"><h2><a href=\"https://x/?v=id1&amp;t=2\" target=\"_blank\" rel=\"noopener\">A &lt;b&gt; &amp; c</a></h2><div class=\"stats\"><span>👤 O&#39;Neil</span><span>⏱ 01:15</span><span>👁 1 234 567 views</span><span>📅 2020-01-01</span></div></div></div><div class=\"links\"><div class=\"format-list\"><h3>Available formats</h3><p class=\"muted\">No downloadable streams.</p></div></div></div>"
    );
}

#[test]
fn a_video_without_author_or_thumbnail() {
    let mut info = details();
    info.author = Some(String::new());
    info.thumbnails = vec![thumbnail(1, 1, "")];
    let text = render_video_info(&info, &Some(vec![stream()]), &None);
    assert!(text.starts_with("<div class=\"card\"><div class=\"card-head\"><div class=\"meta\">"));
    assert!(text.contains("<span>👤 Channel</span>"));
    assert!(text.contains("data-endpoint=\"/download?video=https%3A%2F%2Fx%2F%3Fv%3Did1%26t%3D2&amp;itag=137&amp;container=mp4&amp;video_id=id1\""));
    info.author = None;
    assert!(render_video_info(&info, &None, &None).contains("<span>👤 Channel</span>"));
}

#[test]
fn the_first_page() {
    let (content, fetch) = start_page(&None);
    assert!(!fetch);
    assert_eq!(
        render_page(TEMPLATE, &content),
        format!("<input value=\"\">{HINT}{EXPLORER_HTML}<!---->")
    );
    let reply = page_response(TEMPLATE, &content);
    assert_eq!(reply.status, "200 OK");
    assert_eq!(reply.content_type, "text/html; charset=utf-8");
}

#[test]
fn a_page_for_an_empty_input() {
    for query in ["", "url=", "url=++", "x=1", "url=&url=abc"] {
        let (content, fetch) = start_page(&Some(query.to_string()));
        assert!(!fetch);
        assert_eq!(content.error.as_deref(), Some("Please enter a video URL or ID."));
    }
}

#[test]
fn a_page_for_a_video() {
    let (mut content, fetch) = start_page(&Some("url=+a%26b+&url=c".to_string()));
    assert!(fetch);
    assert_eq!(content.input, "a&b");
    assert!(content.error.is_none());
    assert!(content.take_info(Ok(details())));
    content.take_formats(Ok(vec![stream()]));
    let page = render_page(TEMPLATE, &content);
    let video = render_video_info(&details(), &Some(vec![stream()]), &None);
    assert_eq!(
        page,
        format!("<input value=\"a&amp;b\">{video}{EXPLORER_HTML}<!--a&amp;b-->")
    );
}

#[test]
fn a_page_for_a_video_without_formats() {
    let (mut content, _) = start_page(&Some("url=x".to_string()));
    assert!(content.take_info(Ok(details())));
    content.take_formats(Err("tool <gone>".to_string()));
    assert!(render_page(TEMPLATE, &content)
        .contains("Formats could not be loaded: tool &lt;gone&gt;"));
}

#[test]
fn a_page_for_a_video_that_is_not_found() {
    let (mut content, _) = start_page(&Some("url=x".to_string()));
    assert!(!content.take_info(Err("a & b".to_string())));
    assert_eq!(
        render_page(TEMPLATE, &content),
        format!("<input value=\"x\"><div class=\"alert error\">⚠️ Unable to fetch info: a &amp; b</div>{HINT}{EXPLORER_HTML}<!--x-->")
    );
}

#[test]
fn the_input_is_filled_in_before_the_result() {
    let content = PageContent {
        input: "{{RESULT_SECTION}}".to_string(),
        video: None,
        error: None,
        formats: None,
        formats_error: None,
    };
    assert_eq!(
        render_page("[{{ESCAPED_INPUT}}]", &content),
        format!("[{HINT}{EXPLORER_HTML}]")
    );
}

#[test]
fn pages_that_refuse() {
    let reply = method_refused(TEMPLATE);
    assert_eq!(reply.status, "405 Method Not Allowed");
    assert!(reply.body.contains("<div class=\"alert error\">⚠️ Only GET allowed.</div>"));
    let reply = page_missing(TEMPLATE);
    assert_eq!(reply.status, "404 Not Found");
    assert!(reply.body.contains("<div class=\"alert error\">⚠️ Not found.</div>"));
    assert!(reply.body.contains(EXPLORER_HTML));
}

#[test]
fn the_explorer_has_its_buttons() {
    assert!(EXPLORER_HTML.starts_with("<div class=\"explorer\" id=\"explorer\">\n    <div class=\"explorer-head\">"));
    assert!(EXPLORER_HTML.contains("📂 downloaded/</h3>"));
    assert!(EXPLORER_HTML.ends_with("<div class=\"file-list\" id=\"file-list\"></div>\n</div>"));
}
