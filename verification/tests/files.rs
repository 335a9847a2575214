use downloader::files::{classify_ext, derive_merge_base, duration_probe_args};
use downloader::files::{extension_from_format, find_format, is_mp3_name, is_safe_filename};
use downloader::files::{merged_file_name, mp3_file_name, output_file_name, probed_duration};
use downloader::files::{probed_streams, sanitize_component, stream_probe_args, streams_from_ext};
use downloader::files::{streams_from_name, VideoFormat};

fn names(list: &[&str]) -> Vec<String> {
    list.iter().map(|name| name.to_string()).collect()
}

fn format(itag: u64, container: &str, has_video: bool, has_audio: bool) -> VideoFormat {
    VideoFormat { itag, container: container.to_string(), has_video, has_audio }
}

#[test]
fn reserved_characters_are_replaced() {
    assert_eq!(sanitize_component("a/b\\c:d*e?f\"g<h>i|j"), "a_b_c_d_e_f_g_h_i_j");
    assert_eq!(sanitize_component("größe .-_"), "größe .-_");
    let once = sanitize_component("<x>");
    assert_eq!(sanitize_component(&once), once);
}

#[test]
fn names_of_downloads() {
    assert_eq!(output_file_name("dQw4w9WgXcQ", "137", "mp4"), "dQw4w9WgXcQ_itag137.mp4");
    assert_eq!(output_file_name("a/b", "248-sr", "webm"), "a_b_itag248-sr.webm");
}

#[test]
fn extensions_of_formats() {
    assert_eq!(extension_from_format(&format(140, "mp4", false, true)), "m4a");
    assert_eq!(extension_from_format(&format(18, "mp4", true, true)), "mp4");
    assert_eq!(extension_from_format(&format(137, "mp4", true, false)), "mp4");
    assert_eq!(extension_from_format(&format(251, "webm", false, true)), "webm");
}

#[test]
fn the_first_format_with_a_number_is_found() {
    let formats = vec![format(1, "a", true, true), format(2, "b", true, true), format(2, "c", true, true)];
    assert_eq!(find_format(&formats, 2), Some(1));
    assert_eq!(find_format(&formats, 3), None);
}

#[test]
fn names_that_leave_the_folder_are_not_safe() {
    for name in ["a.mp4", ".hidden", "a.b.c", "über.webm", "a b"] {
        assert!(is_safe_filename(name), "{name}");
    }
    for name in ["", "a/b", "a\\b", "..", "a..b", "../x", "a\0b"] {
        assert!(!is_safe_filename(name), "{name}");
    }
}

#[test]
fn kinds_of_extensions() {
    for ext in ["mp3", "M4A", "aac", "OPUS", "ogg", "oga", "wav", "weba", "flac"] {
        assert_eq!(classify_ext(ext), "audio");
    }
    for ext in ["mp4", "WebM", "mkv", "mov", "avi", "flv", "m4v", "ts"] {
        assert_eq!(classify_ext(ext), "video");
    }
    for ext in ["", "txt", "mp", ".mp4"] {
        assert_eq!(classify_ext(ext), "other");
    }
    // The Kelvin sign is a K in upper case.
    assert_eq!(classify_ext("m\u{212a}v"), "video");
    assert_eq!(streams_from_ext("MKV"), (true, false));
    assert_eq!(streams_from_ext("mp3"), (false, true));
    assert_eq!(streams_from_ext("txt"), (false, false));
}

#[test]
fn names_promise_what_their_extension_does() {
    for name in ["a.mp4", "A.b.MKV", "..webm", "a.mp3", ".mp4", "mp4", "a.", "", "a.txt", "x/y.ogg"] {
        let path = std::path::Path::new(name);
        let ext = path.extension().and_then(|ext| ext.to_str()).unwrap_or("");
        assert_eq!(streams_from_name(name), streams_from_ext(ext), "{name}");
    }
    assert_eq!(streams_from_name("a.MP4"), (true, false));
    assert_eq!(streams_from_name("a.b.opus"), (false, true));
    assert_eq!(streams_from_name(".mp4"), (false, false));
}

#[test]
fn reports_of_the_probe() {
    assert_eq!(probed_streams(b"video\naudio\n"), (true, true));
    assert_eq!(probed_streams(b" audio \r\n"), (false, true));
    assert_eq!(probed_streams(b"videos\naudio,x"), (false, false));
    assert_eq!(probed_streams(b"\xff\nvideo"), (true, false));
    assert_eq!(probed_streams(b""), (false, false));
    assert_eq!(probed_duration(b" 12.5\r\n"), "12.5");
    assert_eq!(
        stream_probe_args(),
        vec!["-v", "error", "-show_entries", "stream=codec_type", "-of", "csv=p=0"]
    );
    assert_eq!(
        duration_probe_args(),
        vec!["-v", "error", "-show_entries", "format=duration", "-of", "csv=p=0"]
    );
}

#[test]
fn merged_files_are_named_after_the_first() {
    assert_eq!(derive_merge_base(&names(&["abc_itag137.mp4", "abc_itag251.webm"])), "abc");
    assert_eq!(derive_merge_base(&names(&["movie.part.mp4"])), "movie.part");
    assert_eq!(derive_merge_base(&names(&["plain"])), "plain");
    assert_eq!(derive_merge_base(&names(&["_itag1.mp4"])), "merged");
    assert_eq!(derive_merge_base(&names(&[".mp4"])), "merged");
    assert_eq!(derive_merge_base(&names(&[])), "merged");
    assert_eq!(derive_merge_base(&names(&["a_itagb_itag1.x"])), "a");
    assert_eq!(merged_file_name(&names(&["abc_itag137.mp4"])), "abc_telegram.mp4");
}

#[test]
fn a_download_is_merged_under_the_name_of_its_video() {
    let name = output_file_name("dQw4w9WgXcQ", "137", "mp4");
    assert_eq!(merged_file_name(&vec![name]), "dQw4w9WgXcQ_telegram.mp4");
    let name = output_file_name("a:b", "251", "webm");
    assert_eq!(merged_file_name(&vec![name]), "a_b_telegram.mp4");
}

#[test]
fn derived_names_stay_in_the_folder() {
    for name in ["a.mp4", ".mp4", "a.", "x", "a.b.c", "_itag.mp4"] {
        assert!(is_safe_filename(name));
        assert!(is_safe_filename(&mp3_file_name(name)), "{name}");
        assert!(is_safe_filename(&merged_file_name(&names(&[name]))), "{name}");
    }
}

#[test]
fn names_of_mp3_files() {
    assert_eq!(mp3_file_name("a.webm"), "a.mp3");
    assert_eq!(mp3_file_name("a.b.webm"), "a.b.mp3");
    assert_eq!(mp3_file_name("a"), "a.mp3");
    assert!(is_mp3_name("a.mp3"));
    assert!(is_mp3_name("A.MP3"));
    assert!(is_mp3_name(".mp3"));
    assert!(!is_mp3_name("mp3"));
    assert!(!is_mp3_name("a.mp3.webm"));
}
