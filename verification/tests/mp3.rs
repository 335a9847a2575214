use downloader::mp3::{mp3_args, mp3_selection, Mp3Action, Mp3Batch, Mp3Event};

fn errors_of(batch: Mp3Batch) -> Vec<String> {
    batch.errors
}

fn skipped(name: &str, event: Mp3Event) -> String {
    let mut batch = Mp3Batch::new();
    assert!(matches!(batch.step(name, event), Mp3Action::Next));
    assert!(batch.outputs.is_empty());
    errors_of(batch).join("#")
}

#[test]
fn files_selected_for_mp3() {
    assert!(matches!(mp3_selection(&Some("files=a".to_string())), Ok(list) if list == vec!["a"]));
    let reply = mp3_selection(&None).err().unwrap();
    assert_eq!(reply.body, "{\"message\":\"Missing files\",\"status\":\"error\"}");
    let reply = mp3_selection(&Some("files=".to_string())).err().unwrap();
    assert_eq!(
        reply.body,
        "{\"message\":\"Select at least one file to convert to MP3.\",\"status\":\"error\"}"
    );
}

#[test]
fn arguments_of_a_conversion() {
    assert_eq!(
        mp3_args("i.webm", "o.mp3"),
        vec!["-y", "-i", "i.webm", "-vn", "-c:a", "libmp3lame", "-b:a", "192k", "o.mp3"]
    );
}

#[test]
fn a_file_that_is_converted() {
    let mut batch = Mp3Batch::new();
    assert!(matches!(batch.step("a.webm", Mp3Event::Selected), Mp3Action::Look));
    assert!(matches!(batch.step("a.webm", Mp3Event::Looked(true)), Mp3Action::Probe));
    let action = batch.step("a.webm", Mp3Event::Probed(true));
    assert!(matches!(action, Mp3Action::Convert(name) if name == "a.mp3"));
    assert!(matches!(batch.step("a.webm", Mp3Event::Converted), Mp3Action::Next));
    assert_eq!(
        batch.finish().body,
        "{\"message\":\"Converted to MP3: a.mp3\",\"outputs\":[\"a.mp3\"],\"status\":\"ok\"}"
    );
}

#[test]
fn files_that_are_skipped() {
    assert_eq!(skipped("../a", Mp3Event::Selected), "../a: invalid name");
    assert_eq!(skipped("a.MP3", Mp3Event::Selected), "a.MP3: already MP3");
    assert_eq!(skipped("a.webm", Mp3Event::Looked(false)), "a.webm: not found");
    assert_eq!(skipped("a.webm", Mp3Event::Probed(false)), "a.webm: no audio stream");
    assert_eq!(skipped("a.webm", Mp3Event::Failed(b"x\n\ny".to_vec())), "a.webm: x | y");
    let lost = Mp3Event::NotRun("ffmpeg".to_string(), "gone".to_string());
    assert_eq!(skipped("a.webm", lost), "a.webm: could not run ffmpeg (ffmpeg): gone");
}

#[test]
fn a_batch_with_skipped_files() {
    let mut batch = Mp3Batch::new();
    batch.step("a.webm", Mp3Event::Converted);
    batch.step("b.mp4", Mp3Event::Converted);
    batch.step("c", Mp3Event::Looked(false));
    batch.step("d", Mp3Event::Probed(false));
    let reply = batch.finish();
    assert_eq!(reply.status, "200 OK");
    assert_eq!(
        reply.body,
        "{\"message\":\"Converted to MP3: a.mp3, b.mp3 — skipped: c: not found | d: no audio stream\",\"outputs\":[\"a.mp3\",\"b.mp3\"],\"status\":\"ok\"}"
    );
}

#[test]
fn a_batch_without_any_output() {
    let mut batch = Mp3Batch::new();
    batch.step("c", Mp3Event::Looked(false));
    assert_eq!(
        batch.finish().body,
        "{\"message\":\"No files converted. c: not found\",\"status\":\"error\"}"
    );
}
