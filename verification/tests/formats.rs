use downloader::formats::{format_quality_ytdlp, stream_from_format, stream_type_ytdlp};
use downloader::formats::{streams_from_formats, Rate, YtdlpFormat};

fn text(value: &str) -> Option<String> {
    Some(value.to_string())
}

fn rate(tbr: f64) -> Option<Rate> {
    Some(Rate { positive: tbr > 0.0, kbps: tbr as u32, bps: (tbr * 1000.0) as u64 })
}

fn format() -> YtdlpFormat {
    YtdlpFormat {
        format_id: text("137"),
        ext: text("mp4"),
        height: Some(1080),
        tbr: rate(2500.5),
        vcodec: text("avc1"),
        acodec: text("none"),
    }
}

#[test]
fn qualities_of_formats() {
    assert_eq!(format_quality_ytdlp(&format()), "1080p");
    assert_eq!(format_quality_ytdlp(&YtdlpFormat { height: None, ..format() }), "2500kbps");
    assert_eq!(format_quality_ytdlp(&YtdlpFormat { height: Some(0), ..format() }), "2500kbps");
    let silent = YtdlpFormat { height: None, tbr: rate(0.0), ..format() };
    assert_eq!(format_quality_ytdlp(&silent), "unknown");
    let audio = YtdlpFormat { height: None, tbr: None, vcodec: text("none"), ..format() };
    assert_eq!(format_quality_ytdlp(&audio), "audio");
    let nothing = YtdlpFormat { height: None, tbr: None, vcodec: None, ..format() };
    assert_eq!(format_quality_ytdlp(&nothing), "audio");
    let small = YtdlpFormat { height: None, tbr: rate(0.5), ..format() };
    assert_eq!(format_quality_ytdlp(&small), "0kbps");
}

#[test]
fn kinds_of_streams() {
    let kind = |vcodec: Option<String>, acodec: Option<String>| {
        stream_type_ytdlp(&YtdlpFormat { vcodec, acodec, ..format() })
    };
    assert_eq!(kind(text("avc1"), text("mp4a")), ("muxed".to_string(), true, true));
    assert_eq!(kind(text("avc1"), text("none")), ("video".to_string(), true, false));
    assert_eq!(kind(text("none"), text("opus")), ("audio".to_string(), false, true));
    assert_eq!(kind(None, text("opus")), ("audio".to_string(), false, true));
    assert_eq!(kind(text("images"), text("none")), ("unknown".to_string(), false, false));
    assert_eq!(kind(text(""), text("")), ("unknown".to_string(), false, false));
    assert_eq!(kind(None, None), ("unknown".to_string(), false, false));
}

#[test]
fn a_format_becomes_a_stream() {
    let stream = stream_from_format(&format()).unwrap();
    assert_eq!(stream.itag.as_deref(), Some("137"));
    assert_eq!(stream.container, "mp4");
    assert_eq!(stream.quality, "1080p");
    assert_eq!(stream.height, Some(1080));
    assert_eq!(stream.bitrate, 2_500_500);
    assert_eq!(stream.stream_type, "video");
    assert!(stream.has_video && !stream.has_audio);
    let copy = stream.clone();
    assert_eq!(copy.itag, stream.itag);
    assert_eq!(copy.bitrate, stream.bitrate);
}

#[test]
fn formats_without_details() {
    let bare = YtdlpFormat { format_id: text(""), ext: None, tbr: None, ..format() };
    let stream = stream_from_format(&bare).unwrap();
    assert_eq!(stream.itag, None);
    assert_eq!(stream.container, "unknown");
    assert_eq!(stream.bitrate, 0);
}

#[test]
fn storyboards_and_unknown_formats_are_dropped() {
    assert!(stream_from_format(&YtdlpFormat { ext: text("mhtml"), ..format() }).is_none());
    let unknown = YtdlpFormat { vcodec: text("none"), ..format() };
    assert!(stream_from_format(&unknown).is_none());
    let list = Some(vec![
        YtdlpFormat { ext: text("mhtml"), ..format() },
        format(),
        YtdlpFormat { vcodec: None, acodec: None, ..format() },
        YtdlpFormat { format_id: text("251"), vcodec: text("none"), acodec: text("opus"), ..format() },
    ]);
    let streams = streams_from_formats(&list);
    let ids: Vec<Option<&str>> = streams.iter().map(|stream| stream.itag.as_deref()).collect();
    assert_eq!(ids, vec![Some("137"), Some("251")]);
    assert!(streams_from_formats(&None).is_empty());
}
