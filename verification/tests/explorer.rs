use downloader::explorer::{clean_path, create_failure, list_files_reply, open_folder_reply};
use downloader::explorer::FileEntry;
use downloader::order::is_text_before;

fn entry(name: &str, size: u64, has_video: bool, has_audio: bool) -> FileEntry {
    FileEntry { name: name.to_string(), size, modified: 7, has_video, has_audio }
}

#[test]
fn files_are_listed_by_name() {
    let entries = vec![
        entry("b.mp4", 1, true, true),
        entry("é.txt", 2, false, false),
        entry("B.webm", 3, false, true),
        entry("b", 4, true, false),
        entry("b.mp4", 5, true, true),
    ];
    let reply = list_files_reply(&entries);
    assert_eq!(reply.status, "200 OK");
    assert_eq!(
        reply.body,
        "{\"files\":[{\"hasAudio\":true,\"hasVideo\":false,\"modified\":7,\"name\":\"B.webm\",\"size\":3,\"type\":\"audio\"},{\"hasAudio\":false,\"hasVideo\":true,\"modified\":7,\"name\":\"b\",\"size\":4,\"type\":\"video\"},{\"hasAudio\":true,\"hasVideo\":true,\"modified\":7,\"name\":\"b.mp4\",\"size\":1,\"type\":\"video\"},{\"hasAudio\":true,\"hasVideo\":true,\"modified\":7,\"name\":\"b.mp4\",\"size\":5,\"type\":\"video\"},{\"hasAudio\":false,\"hasVideo\":false,\"modified\":7,\"name\":\"é.txt\",\"size\":2,\"type\":\"other\"}]}"
    );
    assert_eq!(list_files_reply(&vec![]).body, "{\"files\":[]}");
}

#[test]
fn texts_are_ordered_by_their_characters() {
    let texts = ["", "a", "a!", "aa", "b", "é", "\u{ffff}", "🎵"];
    for left in texts {
        for right in texts {
            assert_eq!(is_text_before(left, right), left < right, "{left} {right}");
        }
    }
}

#[test]
fn opening_the_folder() {
    assert_eq!(clean_path("\\\\?\\C:\\x\\downloaded"), "C:\\x\\downloaded");
    assert_eq!(clean_path("/home/x/downloaded"), "/home/x/downloaded");
    assert_eq!(clean_path("\\\\?"), "\\\\?");
    let reply = open_folder_reply("/d", Ok(()));
    assert_eq!(reply.body, "{\"path\":\"/d\",\"status\":\"ok\"}");
    let reply = open_folder_reply("/d", Err("no".to_string()));
    assert_eq!(reply.body, "{\"message\":\"Could not open folder: no\",\"status\":\"error\"}");
    let reply = create_failure("full");
    assert_eq!(reply.body, "{\"message\":\"Could not create folder: full\",\"status\":\"error\"}");
}
