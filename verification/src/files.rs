//! File names: what a download is saved as, which names are accepted, what kind of media a name
//! or a probe promises.

use crate::text::{chars_of, contains_text, ends_with, find_first, find_first_char, find_text};
use crate::text::{find_text_from, finishes_with, has_text, lines, matches_at, push_text, same_text};
use crate::text::{a_found_text_is_the_first, lines_end_at_line_feeds, starts_with, string_of};
use crate::text::{text_lines, trim_text, trimmed, views};
use crate::unicode::{decode, decoded, lower_case, lowered};
use vstd::prelude::*;
use vstd::slice::slice_subrange;

verus! {

/// The characters that a file name may not hold on some system.
pub open spec fn is_reserved(ch: char) -> bool {
    ||| ch == '/'
    ||| ch == '\\'
    ||| ch == ':'
    ||| ch == '*'
    ||| ch == '?'
    ||| ch == '"'
    ||| ch == '<'
    ||| ch == '>'
    ||| ch == '|'
}

/// `text` with each reserved character replaced by an underscore.
pub open spec fn sanitized(text: Seq<char>) -> Seq<char> {
    text.map_values(
        |ch: char|
            if is_reserved(ch) {
                '_'
            } else {
                ch
            },
    )
}

/// Replaces the characters that a file name may not hold.
pub fn sanitize_component(input: &str) -> (name: String)
    ensures
        name@ == sanitized(input@),
{
    let chars = chars_of(input);
    let mut name = String::new();
    let mut i: usize = 0;
    while i < chars.len()
        invariant
            i <= chars.len(),
            chars@ == input@,
            name@ == sanitized(input@).take(i as int),
        decreases chars.len() - i,
    {
        let ch = chars[i];
        if ch == '/' || ch == '\\' || ch == ':' || ch == '*' || ch == '?' || ch == '"' || ch == '<'
            || ch == '>' || ch == '|' {
            name.push('_');
        } else {
            name.push(ch);
        }
        i = i + 1;
        assert(name@ =~= sanitized(input@).take(i as int));
    }
    assert(sanitized(input@).take(i as int) =~= sanitized(input@));
    name
}

/// A sanitized text is as long as before, holds no reserved character, and stays as it is when
/// it is sanitized again.
pub proof fn sanitized_is_clean(text: Seq<char>)
    ensures
        sanitized(text).len() == text.len(),
        forall|i: int| 0 <= i < text.len() ==> !is_reserved(#[trigger] sanitized(text)[i]),
        sanitized(sanitized(text)) == sanitized(text),
{
    assert(sanitized(sanitized(text)) =~= sanitized(text));
}

/// The name under which a download is saved, before its extension.
pub open spec fn download_base(video_id: Seq<char>, itag: Seq<char>) -> Seq<char> {
    sanitized(video_id + "_itag"@ + itag)
}

/// The name under which a download is saved.
pub open spec fn download_name(
    video_id: Seq<char>,
    itag: Seq<char>,
    container: Seq<char>,
) -> Seq<char> {
    download_base(video_id, itag) + "."@ + container
}

/// The name under which format `itag` of a video is saved.
pub fn output_file_name(video_id: &str, itag: &str, container: &str) -> (name: String)
    ensures
        name@ == download_name(video_id@, itag@, container@),
{
    let mut base = video_id.to_owned();
    base.append("_itag");
    base.append(itag);
    let mut name = sanitize_component(base.as_str());
    name.append(".");
    name.append(container);
    name
}

/// One downloadable format of a video, as the video site describes it.
pub struct VideoFormat {
    /// The number that selects the format.
    pub itag: u64,
    /// The container named by the mime type.
    pub container: String,
    pub has_video: bool,
    pub has_audio: bool,
}

/// The extension of a saved format: its container, but `m4a` for an `mp4` that holds audio alone.
pub open spec fn extension_text(container: Seq<char>, has_video: bool, has_audio: bool) -> Seq<
    char,
> {
    if container == "mp4"@ && has_audio && !has_video {
        "m4a"@
    } else {
        container
    }
}

/// The extension under which `format` is saved.
pub fn extension_from_format(format: &VideoFormat) -> (extension: String)
    ensures
        extension@ == extension_text(format.container@, format.has_video, format.has_audio),
{
    if same_text(format.container.as_str(), "mp4") && format.has_audio && !format.has_video {
        "m4a".to_owned()
    } else {
        format.container.clone()
    }
}

/// The index of the first of `formats`, not below `from`, with the number `itag`.
pub open spec fn format_index(formats: Seq<VideoFormat>, itag: u64, from: int) -> Option<int>
    decreases formats.len() - from,
{
    if from >= formats.len() {
        None
    } else if formats[from].itag == itag {
        Some(from)
    } else {
        format_index(formats, itag, from + 1)
    }
}

/// The first of `formats` with the number `itag`.
pub fn find_format(formats: &Vec<VideoFormat>, itag: u64) -> (found: Option<usize>)
    ensures
        match found {
            Some(at) => at < formats.len() && formats@[at as int].itag == itag && forall|k: int|
                0 <= k < at ==> (#[trigger] formats@[k]).itag != itag,
            None => forall|k: int| 0 <= k < formats.len() ==> (#[trigger] formats@[k]).itag != itag,
        },
        format_index(formats@, itag, 0) == (match found {
            Some(at) => Some(at as int),
            None => None,
        }),
{
    proof {
        the_first_format_with_the_number_is_taken(formats@, itag, 0);
    }
    let mut i: usize = 0;
    while i < formats.len()
        invariant
            i <= formats.len(),
            forall|k: int| 0 <= k < i ==> (#[trigger] formats@[k]).itag != itag,
        decreases formats.len() - i,
    {
        if formats[i].itag == itag {
            proof {
                the_first_format_with_the_number_is_taken(formats@, itag, 0);
            }
            return Some(i);
        }
        i = i + 1;
    }
    None
}

/// A name that stays inside the folder it is looked up in.
pub open spec fn is_safe_name(name: Seq<char>) -> bool {
    &&& name.len() > 0
    &&& !name.contains('/')
    &&& !name.contains('\\')
    &&& !contains_text(name, ".."@)
    &&& !name.contains('\0')
}

/// Whether a file name from a request cannot lead out of the download folder.
pub fn is_safe_filename(name: &str) -> (safe: bool)
    ensures
        safe == is_safe_name(name@),
{
    let chars = chars_of(name);
    chars.len() > 0 && find_first_char(chars.as_slice(), '/').is_none() && find_first_char(
        chars.as_slice(),
        '\\',
    ).is_none() && !has_text(name, "..") && find_first_char(chars.as_slice(), '\0').is_none()
}

/// The kind of media that a lower-case extension promises.
pub open spec fn media_kind(extension: Seq<char>) -> Seq<char> {
    if extension == "mp3"@ || extension == "m4a"@ || extension == "aac"@ || extension == "opus"@
        || extension == "ogg"@ || extension == "oga"@ || extension == "wav"@ || extension == "weba"@
        || extension == "flac"@ {
        "audio"@
    } else if extension == "mp4"@ || extension == "webm"@ || extension == "mkv"@ || extension
        == "mov"@ || extension == "avi"@ || extension == "flv"@ || extension == "m4v"@ || extension
        == "ts"@ {
        "video"@
    } else {
        "other"@
    }
}

/// The kind of media that a lower-case extension promises.
pub fn classify_lower_ext(ext: &str) -> (kind: &'static str)
    ensures
        kind@ == media_kind(ext@),
{
    if same_text(ext, "mp3") || same_text(ext, "m4a") || same_text(ext, "aac") || same_text(
        ext,
        "opus",
    ) || same_text(ext, "ogg") || same_text(ext, "oga") || same_text(ext, "wav") || same_text(
        ext,
        "weba",
    ) || same_text(ext, "flac") {
        "audio"
    } else if same_text(ext, "mp4") || same_text(ext, "webm") || same_text(ext, "mkv") || same_text(
        ext,
        "mov",
    ) || same_text(ext, "avi") || same_text(ext, "flv") || same_text(ext, "m4v") || same_text(
        ext,
        "ts",
    ) {
        "video"
    } else {
        "other"
    }
}

/// The kind of media that an extension promises, in whatever case it is written.
pub fn classify_ext(ext: &str) -> (kind: &'static str)
    ensures
        kind@ == media_kind(lowered(ext@)),
{
    let lower = lower_case(ext);
    classify_lower_ext(lower.as_str())
}

/// Some line of `text`, without the white space round it, is `wanted`.
pub open spec fn has_line(text: Seq<char>, wanted: Seq<char>) -> bool {
    exists|i: int| 0 <= i < lines(text).len() && trimmed(#[trigger] lines(text)[i]) == wanted
}

/// Whether some line of `text` is `wanted`, white space round it aside.
pub fn any_line_is(text: &str, wanted: &str) -> (found: bool)
    ensures
        found == has_line(text@, wanted@),
{
    let list = text_lines(text);
    let mut i: usize = 0;
    while i < list.len()
        invariant
            i <= list.len(),
            views(list@) == lines(text@),
            forall|k: int| 0 <= k < i ==> trimmed(#[trigger] lines(text@)[k]) != wanted@,
        decreases list.len() - i,
    {
        let line = trim_text(list[i].as_str());
        assert(lines(text@)[i as int] == list@[i as int]@);
        if same_text(line.as_str(), wanted) {
            return true;
        }
        i = i + 1;
    }
    false
}

/// What a probe printed, one stream kind a line: whether there is a video stream, and whether
/// there is an audio stream.
pub fn streams_in_report(report: &str) -> (kinds: (bool, bool))
    ensures
        kinds.0 == has_line(report@, "video"@),
        kinds.1 == has_line(report@, "audio"@),
{
    (any_line_is(report, "video"), any_line_is(report, "audio"))
}

/// What a probe printed, as bytes: whether there is a video stream, and whether there is an audio
/// stream.
pub fn probed_streams(report: &[u8]) -> (kinds: (bool, bool))
    ensures
        kinds.0 == has_line(decoded(report@), "video"@),
        kinds.1 == has_line(decoded(report@), "audio"@),
{
    let text = decode(report);
    streams_in_report(text.as_str())
}

/// The arguments that make the probe print one value for each match of `entries`, before the file
/// that it is to look at.
pub open spec fn probe_arguments(entries: Seq<char>) -> Seq<Seq<char>> {
    seq!["-v"@, "error"@, "-show_entries"@, entries, "-of"@, "csv=p=0"@]
}

/// The arguments that make the probe print what `entries` selects.
fn probe_args(entries: &str) -> (args: Vec<String>)
    ensures
        views(args@) == probe_arguments(entries@),
{
    let mut args: Vec<String> = Vec::new();
    push_text(&mut args, "-v");
    push_text(&mut args, "error");
    push_text(&mut args, "-show_entries");
    push_text(&mut args, entries);
    push_text(&mut args, "-of");
    push_text(&mut args, "csv=p=0");
    assert(views(args@) =~= probe_arguments(entries@));
    args
}

/// The arguments that make the probe print the kinds of the streams of a file.
pub fn stream_probe_args() -> (args: Vec<String>)
    ensures
        views(args@) == probe_arguments("stream=codec_type"@),
{
    probe_args("stream=codec_type")
}

/// The arguments that make the probe print the duration of a file.
pub fn duration_probe_args() -> (args: Vec<String>)
    ensures
        views(args@) == probe_arguments("format=duration"@),
{
    probe_args("format=duration")
}

/// The duration that a probe printed, as it is written.
pub fn probed_duration(report: &[u8]) -> (duration: String)
    ensures
        duration@ == trimmed(decoded(report@)),
{
    let text = decode(report);
    trim_text(text.as_str())
}

/// What an extension promises, where no probe can be run: whether there is a video stream, and
/// whether there is an audio stream.
pub fn streams_from_ext(ext: &str) -> (kinds: (bool, bool))
    ensures
        kinds.0 == (media_kind(lowered(ext@)) == "video"@),
        kinds.1 == (media_kind(lowered(ext@)) == "audio"@),
{
    proof {
        reveal_strlit("video");
        reveal_strlit("audio");
        reveal_strlit("other");
        assert("video"@[0] != "audio"@[0]);
        assert("video"@[0] != "other"@[0]);
        assert("audio"@[0] != "other"@[0]);
    }
    let kind = classify_ext(ext);
    (same_text(kind, "video"), same_text(kind, "audio"))
}

/// The extension of a file name: what stands behind its last dot, nothing where there is no dot or
/// where it is the first character.
pub open spec fn extension_of(name: Seq<char>) -> Seq<char> {
    match find_last_char(name, '.') {
        Some(at) => if at > 0 {
            name.skip(at + 1)
        } else {
            Seq::empty()
        },
        None => Seq::empty(),
    }
}

/// What the name of a file promises: whether there is a video stream, and whether there is an audio
/// stream.
pub open spec fn promised_streams(name: Seq<char>) -> (bool, bool) {
    let kind = media_kind(lowered(extension_of(name)));
    (kind == "video"@, kind == "audio"@)
}

/// What the name of a file promises, where no probe can be run: whether there is a video stream,
/// and whether there is an audio stream.
pub fn streams_from_name(name: &str) -> (kinds: (bool, bool))
    ensures
        kinds.0 == (media_kind(lowered(extension_of(name@))) == "video"@),
        kinds.1 == (media_kind(lowered(extension_of(name@))) == "audio"@),
        kinds == promised_streams(name@),
{
    let chars = chars_of(name);
    let length = stem_length(chars.as_slice());
    proof {
        lemma_last_char(name@, '.');
    }
    if 0 < length && length < chars.len() {
        let extension = string_of(slice_subrange(chars.as_slice(), length + 1, chars.len()));
        assert(stem_of(name@).len() == length);
        assert(extension@ =~= extension_of(name@));
        streams_from_ext(extension.as_str())
    } else {
        assert(stem_of(name@).len() == length);
        assert(extension_of(name@) =~= ""@) by {
            reveal_strlit("");
        }
        streams_from_ext("")
    }
}

/// The last index at which `text` holds `ch`.
pub open spec fn find_last_char(text: Seq<char>, ch: char) -> Option<int>
    decreases text.len(),
{
    if text.len() == 0 {
        None
    } else if text.last() == ch {
        Some(text.len() - 1)
    } else {
        find_last_char(text.drop_last(), ch)
    }
}

/// `name` before its last dot; all of it where it has none.
pub open spec fn stem_of(name: Seq<char>) -> Seq<char> {
    match find_last_char(name, '.') {
        Some(at) => name.take(at),
        None => name,
    }
}

/// `name` before its last dot.
fn stem_length(name: &[char]) -> (length: usize)
    ensures
        length <= name.len(),
        stem_of(name@) == name@.take(length as int),
{
    let mut i: usize = name.len();
    assert(name@.take(i as int) =~= name@);
    while i > 0
        invariant
            i <= name.len(),
            find_last_char(name@, '.') == find_last_char(name@.take(i as int), '.'),
        decreases i,
    {
        assert(name@.take(i as int).drop_last() =~= name@.take(i - 1));
        if name[i - 1] == '.' {
            return i - 1;
        }
        i = i - 1;
    }
    assert(name@.take(name@.len() as int) =~= name@);
    name.len()
}

/// `stem` before the mark that a download puts between video id and format.
pub open spec fn before_itag(stem: Seq<char>) -> Seq<char> {
    match find_text(stem, "_itag"@) {
        Some(at) => stem.take(at),
        None => stem,
    }
}

/// The base name of what is merged from `names`: taken from the first of them, `merged` where
/// that leaves nothing.
pub open spec fn merge_base(names: Seq<Seq<char>>) -> Seq<char> {
    let first = if names.len() > 0 {
        names[0]
    } else {
        "merged"@
    };
    let base = before_itag(stem_of(first));
    if base.len() == 0 {
        "merged"@
    } else {
        base
    }
}

/// The base name of a merged file, from the files that were selected.
pub fn derive_merge_base(files: &Vec<String>) -> (base: String)
    ensures
        base@ == merge_base(views(files@)),
{
    let first = if files.len() > 0 {
        assert(views(files@)[0] == files@[0]@);
        chars_of(files[0].as_str())
    } else {
        chars_of("merged")
    };
    let length = stem_length(first.as_slice());
    let stem = slice_subrange(first.as_slice(), 0, length);
    assert(first@.subrange(0, length as int) =~= first@.take(length as int));
    let mark = chars_of("_itag");
    let kept: usize = match find_first(stem, mark.as_slice()) {
        Some(at) => at,
        None => stem.len(),
    };
    if kept == 0 {
        "merged".to_owned()
    } else {
        assert(stem@.subrange(0, kept as int) =~= before_itag(stem@));
        string_of(slice_subrange(stem, 0, kept))
    }
}

/// The name of a merged file.
pub open spec fn merged_name(names: Seq<Seq<char>>) -> Seq<char> {
    merge_base(names) + "_telegram.mp4"@
}

/// The name of the file that the selected ones are merged into.
pub fn merged_file_name(files: &Vec<String>) -> (name: String)
    ensures
        name@ == merged_name(views(files@)),
{
    let mut name = derive_merge_base(files);
    name.append("_telegram.mp4");
    name
}

/// The name of the MP3 made from a file.
pub open spec fn mp3_name(name: Seq<char>) -> Seq<char> {
    stem_of(name) + ".mp3"@
}

/// The name of the MP3 made from `name`.
pub fn mp3_file_name(name: &str) -> (mp3: String)
    ensures
        mp3@ == mp3_name(name@),
{
    let chars = chars_of(name);
    let length = stem_length(chars.as_slice());
    assert(chars@.subrange(0, length as int) =~= chars@.take(length as int));
    let mut mp3 = string_of(slice_subrange(chars.as_slice(), 0, length));
    mp3.append(".mp3");
    mp3
}

/// Whether a name says that the file is an MP3 already.
pub fn is_mp3_name(name: &str) -> (is_mp3: bool)
    ensures
        is_mp3 == ends_with(lowered(name@), ".mp3"@),
{
    let lower = lower_case(name);
    finishes_with(lower.as_str(), ".mp3")
}

proof fn lemma_last_char(text: Seq<char>, ch: char)
    ensures
        match find_last_char(text, ch) {
            Some(at) => 0 <= at < text.len() && text[at] == ch && forall|k: int|
                at < k < text.len() ==> text[k] != ch,
            None => !text.contains(ch),
        },
    decreases text.len(),
{
    if text.len() > 0 && text.last() != ch {
        let shorter = text.drop_last();
        lemma_last_char(shorter, ch);
        assert(forall|k: int| 0 <= k < shorter.len() ==> shorter[k] == text[k]);
        if find_last_char(text, ch) is None && text.contains(ch) {
            let k = text.index_of(ch);
            assert(shorter[k] == ch);
        }
    }
}

/// What begins a safe name and does not end in a dot, or is followed by something that does not
/// begin with one, gives a safe name with any safe ending.
proof fn lemma_safe_join(name: Seq<char>, length: int, ending: Seq<char>)
    requires
        is_safe_name(name),
        0 <= length <= name.len(),
        is_safe_name(ending),
        length > 0 && name[length - 1] == '.' ==> ending[0] != '.',
    ensures
        is_safe_name(name.take(length) + ending),
{
    let joined = name.take(length) + ending;
    assert forall|ch: char| ch == '/' || ch == '\\' || ch == '\0' implies !#[trigger] joined.contains(
        ch,
    ) by {
        if joined.contains(ch) {
            let k = joined.index_of(ch);
            if k < length {
                assert(name[k] == ch);
            } else {
                assert(ending[k - length] == ch);
            }
        }
    }
    reveal_strlit("..");
    if contains_text(joined, ".."@) {
        let at = choose|at: int| matches_at(joined, ".."@, at);
        assert(joined.subrange(at, at + 2)[0] == '.' && joined.subrange(at, at + 2)[1] == '.');
        assert(joined[at] == '.' && joined[at + 1] == '.');
        if at + 1 < length {
            assert(name.subrange(at, at + 2) =~= ".."@);
            assert(matches_at(name, ".."@, at));
        } else if at >= length {
            assert(ending.subrange(at - length, at - length + 2) =~= ".."@);
            assert(matches_at(ending, ".."@, at - length));
        }
    }
}

/// What is made of files with safe names has a safe name, too.
pub proof fn derived_names_are_safe(names: Seq<Seq<char>>)
    requires
        names.len() > 0,
        is_safe_name(names[0]),
    ensures
        is_safe_name(mp3_name(names[0])),
        is_safe_name(merged_name(names)),
{
    let name = names[0];
    reveal_strlit("..");
    reveal_strlit(".mp3");
    reveal_strlit("_telegram.mp4");
    reveal_strlit("merged");
    lemma_last_char(name, '.');
    let stem = stem_of(name);
    let length = stem.len() as int;
    assert(stem =~= name.take(length));
    assert(is_safe_name(".mp3"@)) by {
        lemma_short_name_is_safe(".mp3"@);
    }
    assert(is_safe_name("_telegram.mp4"@)) by {
        lemma_short_name_is_safe("_telegram.mp4"@);
    }
    assert(is_safe_name("merged"@)) by {
        lemma_short_name_is_safe("merged"@);
    }
    if length > 0 && name[length - 1] == '.' {
        if find_last_char(name, '.') is Some {
            assert(name.subrange(length - 1, length + 1) =~= ".."@);
            assert(matches_at(name, ".."@, length - 1));
        } else {
            assert(name.contains('.'));
        }
    }
    lemma_safe_join(name, length, ".mp3"@);
    lemma_found_text(stem, "_itag"@, 0);
    let base = merge_base(names);
    if before_itag(stem).len() > 0 {
        assert(base =~= name.take(base.len() as int));
        lemma_safe_join(name, base.len() as int, "_telegram.mp4"@);
    } else {
        assert("merged"@.take(6) =~= "merged"@);
        lemma_safe_join("merged"@, 6, "_telegram.mp4"@);
    }
}

/// A name without separators in which no two dots meet is safe.
proof fn lemma_short_name_is_safe(name: Seq<char>)
    requires
        name.len() > 0,
        forall|i: int|
            0 <= i < name.len() ==> #[trigger] name[i] != '/' && name[i] != '\\' && name[i] != '\0',
        forall|i: int| 0 <= i < name.len() - 1 && #[trigger] name[i] == '.' ==> name[i + 1] != '.',
    ensures
        is_safe_name(name),
{
    reveal_strlit("..");
    if contains_text(name, ".."@) {
        let at = choose|at: int| matches_at(name, ".."@, at);
        assert(name.subrange(at, at + 2)[0] == '.' && name.subrange(at, at + 2)[1] == '.');
        assert(name[at] == '.' && name[at + 1] == '.');
    }
}

proof fn lemma_found_text(text: Seq<char>, pattern: Seq<char>, from: int)
    requires
        0 <= from,
    ensures
        match find_text_from(text, pattern, from) {
            Some(at) => from <= at && matches_at(text, pattern, at) && forall|k: int|
                from <= k < at ==> !matches_at(text, pattern, k),
            None => forall|k: int| from <= k ==> !matches_at(text, pattern, k),
        },
    decreases text.len() - from + 1,
{
    if from + pattern.len() <= text.len() && !matches_at(text, pattern, from) {
        lemma_found_text(text, pattern, from + 1);
    }
}

/// Downloads of one video are merged into a file that is named after the video, as long as the
/// mark between video id and format does not stand in the id already, and the container has no dot
/// in it.
pub proof fn merge_is_named_after_its_video(
    video_id: Seq<char>,
    itag: Seq<char>,
    container: Seq<char>,
    others: Seq<Seq<char>>,
)
    requires
        video_id.len() > 0,
        !container.contains('.'),
        forall|k: int|
            0 <= k < video_id.len() ==> !#[trigger] matches_at(
                sanitized(video_id) + "_itag"@,
                "_itag"@,
                k,
            ),
    ensures
        merged_name(seq![download_name(video_id, itag, container)] + others) == sanitized(video_id)
            + "_telegram.mp4"@,
{
    let name = download_name(video_id, itag, container);
    let base = download_base(video_id, itag);
    let clean = sanitized(video_id);
    reveal_strlit("_itag");
    reveal_strlit(".");
    lemma_last_char(name, '.');
    let dot = base.len() as int;
    assert(name[dot] == '.');
    assert forall|k: int| dot < k < name.len() implies name[k] != '.' by {
        assert(name[k] == container[k - dot - 1]);
    }
    assert(name.contains('.'));
    assert(find_last_char(name, '.') == Some(dot));
    assert(stem_of(name) =~= base);
    assert(base =~= clean + "_itag"@ + sanitized(itag));
    let at = clean.len() as int;
    assert(base.subrange(at, at + 5) =~= "_itag"@);
    assert(matches_at(base, "_itag"@, at));
    lemma_found_text(base, "_itag"@, 0);
    assert forall|k: int| 0 <= k < at implies !matches_at(base, "_itag"@, k) by {
        if matches_at(base, "_itag"@, k) {
            assert((clean + "_itag"@).subrange(k, k + 5) =~= base.subrange(k, k + 5));
            assert(matches_at(clean + "_itag"@, "_itag"@, k));
        }
    }
    assert(find_text(base, "_itag"@) == Some(at));
    assert(base.take(at) =~= clean);
}

/// The extension under which a format is saved is its container, for every container and every
/// pair of streams but one: an `mp4` with audio and without video is an `m4a`.
pub proof fn only_audio_in_mp4_is_renamed(container: Seq<char>, has_video: bool, has_audio: bool)
    ensures
        extension_text("mp4"@, false, true) == "m4a"@,
        container != "mp4"@ ==> extension_text(container, has_video, has_audio) == container,
        has_video || !has_audio ==> extension_text(container, has_video, has_audio) == container,
{
}

/// A name is safe exactly if it is not empty, holds no separator and no zero character, and has no
/// two dots next to each other.
pub proof fn a_safe_name_has_no_way_out(name: Seq<char>)
    ensures
        is_safe_name(name) <==> {
            &&& name.len() > 0
            &&& forall|k: int|
                0 <= k < name.len() ==> #[trigger] name[k] != '/' && name[k] != '\\' && name[k]
                    != '\0'
            &&& forall|k: int| 0 <= k < name.len() - 1 && #[trigger] name[k] == '.' ==> name[k + 1]
                != '.'
        },
{
    reveal_strlit("..");
    if is_safe_name(name) {
        assert forall|k: int| 0 <= k < name.len() implies #[trigger] name[k] != '/' && name[k]
            != '\\' && name[k] != '\0' by {
            assert(name.contains(name[k]));
        }
        assert forall|k: int| 0 <= k < name.len() - 1 && #[trigger] name[k] == '.' implies name[k
            + 1] != '.' by {
            if name[k + 1] == '.' {
                assert(name.subrange(k, k + 2) =~= ".."@);
                assert(matches_at(name, ".."@, k));
            }
        }
    }
    if name.len() > 0 && (forall|k: int|
        0 <= k < name.len() ==> #[trigger] name[k] != '/' && name[k] != '\\' && name[k] != '\0')
        && (forall|k: int| 0 <= k < name.len() - 1 && #[trigger] name[k] == '.' ==> name[k + 1]
        != '.') {
        lemma_short_name_is_safe(name);
    }
}

/// Sanitizing changes the nine reserved characters, each to an underscore, and no other.
pub proof fn sanitizing_changes_reserved_characters_only(text: Seq<char>, i: int)
    requires
        0 <= i < text.len(),
    ensures
        "/\\:*?\"<>|"@.contains(text[i]) ==> sanitized(text)[i] == '_',
        !"/\\:*?\"<>|"@.contains(text[i]) ==> sanitized(text)[i] == text[i],
{
    reveal_strlit("/\\:*?\"<>|");
    let reserved = "/\\:*?\"<>|"@;
    let ch = text[i];
    if reserved.contains(ch) {
        let k = reserved.index_of(ch);
        assert(reserved[k] == ch);
    }
    assert(reserved[0] == '/' && reserved[1] == '\\' && reserved[2] == ':' && reserved[3] == '*'
        && reserved[4] == '?' && reserved[5] == '"' && reserved[6] == '<' && reserved[7] == '>'
        && reserved[8] == '|');
}

/// A download is saved under the id of its video, the mark and the id of its format, as far as a
/// name can hold them, and under its own container.
pub proof fn a_download_is_named_after_video_format_and_container(
    video_id: Seq<char>,
    itag: Seq<char>,
    container: Seq<char>,
)
    ensures
        download_name(video_id, itag, container) == sanitized(video_id) + "_itag"@ + sanitized(itag)
            + "."@ + container,
{
    reveal_strlit("_itag");
    assert(download_base(video_id, itag) =~= sanitized(video_id) + "_itag"@ + sanitized(itag));
}

/// An extension promises audio or video exactly if it is one of those listed here, and then what
/// its list says; every other one promises nothing.
pub proof fn extensions_promise_what_their_list_says(extension: Seq<char>)
    ensures
        ({
            let audio = seq![
                "mp3"@,
                "m4a"@,
                "aac"@,
                "opus"@,
                "ogg"@,
                "oga"@,
                "wav"@,
                "weba"@,
                "flac"@,
            ];
            let video = seq![
                "mp4"@,
                "webm"@,
                "mkv"@,
                "mov"@,
                "avi"@,
                "flv"@,
                "m4v"@,
                "ts"@,
            ];
            &&& audio.contains(extension) ==> media_kind(extension) == "audio"@
            &&& !audio.contains(extension) && video.contains(extension) ==> media_kind(extension)
                == "video"@
            &&& !audio.contains(extension) && !video.contains(extension) ==> media_kind(extension)
                == "other"@
        }),
{
    let audio = seq![
        "mp3"@,
        "m4a"@,
        "aac"@,
        "opus"@,
        "ogg"@,
        "oga"@,
        "wav"@,
        "weba"@,
        "flac"@,
    ];
    let video = seq!["mp4"@, "webm"@, "mkv"@, "mov"@, "avi"@, "flv"@, "m4v"@, "ts"@];
    assert(audio[0] == "mp3"@ && audio[1] == "m4a"@ && audio[2] == "aac"@ && audio[3] == "opus"@
        && audio[4] == "ogg"@ && audio[5] == "oga"@ && audio[6] == "wav"@ && audio[7] == "weba"@
        && audio[8] == "flac"@);
    assert(video[0] == "mp4"@ && video[1] == "webm"@ && video[2] == "mkv"@ && video[3] == "mov"@
        && video[4] == "avi"@ && video[5] == "flv"@ && video[6] == "m4v"@ && video[7] == "ts"@);
}

/// A name with a dot that is not its first character is a stem and, behind its last dot, an
/// extension; any other name is all stem. The MP3 made from a file keeps its stem.
pub proof fn a_name_is_stem_and_extension(stem: Seq<char>, extension: Seq<char>)
    requires
        !extension.contains('.'),
    ensures
        stem_of(stem + seq!['.'] + extension) == stem,
        stem.len() > 0 ==> extension_of(stem + seq!['.'] + extension) == extension,
        stem.len() == 0 ==> extension_of(stem + seq!['.'] + extension).len() == 0,
        mp3_name(stem + seq!['.'] + extension) == stem + ".mp3"@,
        stem_of(extension) == extension,
        extension_of(extension).len() == 0,
        mp3_name(extension) == extension + ".mp3"@,
{
    let name = stem + seq!['.'] + extension;
    let dot = stem.len() as int;
    lemma_last_char(name, '.');
    lemma_last_char(extension, '.');
    assert(name[dot] == '.');
    assert(name.contains('.'));
    assert forall|k: int| dot < k < name.len() implies name[k] != '.' by {
        assert(name[k] == extension[k - dot - 1]);
        assert(extension.contains(extension[k - dot - 1]));
    }
    assert(find_last_char(name, '.') == Some(dot));
    assert(name.take(dot) =~= stem);
    assert(name.skip(dot + 1) =~= extension);
    if let Some(k) = find_last_char(extension, '.') {
        assert(extension.contains(extension[k]));
    }
}

/// What is merged is named after the first file alone: what stands before the mark in its stem, or
/// all of its stem where there is no mark; `merged` where that is nothing.
pub proof fn a_merge_is_named_after_its_first_file(
    base: Seq<char>,
    behind: Seq<char>,
    extension: Seq<char>,
    others: Seq<Seq<char>>,
)
    requires
        !extension.contains('.'),
        behind.len() == 0 || starts_with(behind, "_itag"@),
        forall|k: int| k < base.len() ==> !#[trigger] matches_at(base + behind, "_itag"@, k),
    ensures
        merged_name(seq![base + behind + seq!['.'] + extension] + others) == (if base.len() == 0 {
            "merged"@
        } else {
            base
        }) + "_telegram.mp4"@,
{
    let stem = base + behind;
    let name = stem + seq!['.'] + extension;
    let names = seq![name] + others;
    reveal_strlit("_itag");
    a_name_is_stem_and_extension(stem, extension);
    a_found_text_is_the_first(stem, "_itag"@);
    assert(names[0] == name);
    let at = base.len() as int;
    if behind.len() == 0 {
        assert(stem =~= base);
        if let Some(k) = find_text(stem, "_itag"@) {
            assert(matches_at(stem, "_itag"@, k));
            assert(k < base.len());
        }
    } else {
        assert(stem.subrange(at, at + 5) =~= behind.subrange(0, 5));
        assert(matches_at(stem, "_itag"@, at));
        let k = find_text(stem, "_itag"@)->0;
        if k > at {
            assert(!matches_at(stem, "_itag"@, at));
        }
        assert(k == at);
        assert(stem.take(at) =~= base);
    }
    assert(before_itag(stem) =~= base);
}

/// A report names a kind of stream if its first line does, white space aside, or if what stands
/// behind that line does.
pub proof fn a_report_is_read_line_by_line(
    line: Seq<char>,
    rest: Seq<char>,
    wanted: Seq<char>,
)
    requires
        !line.contains('\n'),
    ensures
        has_line(line + seq!['\r', '\n'] + rest, wanted) <==> trimmed(line) == wanted || has_line(
            rest,
            wanted,
        ),
        line.len() == 0 || line.last() != '\r' ==> (has_line(line + seq!['\n'] + rest, wanted)
            <==> trimmed(line) == wanted || has_line(rest, wanted)),
        !has_line(Seq::empty(), wanted),
{
    lines_end_at_line_feeds(line, rest);
    let all = seq![line] + lines(rest);
    assert(all[0] == line);
    assert forall|i: int| 0 <= i < lines(rest).len() implies all[i + 1] == lines(rest)[i] by {}
    if has_line(rest, wanted) {
        let i = choose|i: int|
            0 <= i < lines(rest).len() && trimmed(#[trigger] lines(rest)[i]) == wanted;
        assert(trimmed(all[i + 1]) == wanted);
    }
    if exists|i: int| 0 <= i < all.len() && trimmed(#[trigger] all[i]) == wanted {
        let i = choose|i: int| 0 <= i < all.len() && trimmed(#[trigger] all[i]) == wanted;
        if i > 0 {
            assert(lines(rest)[i - 1] == all[i]);
        }
    }
}

/// A probe is asked for exactly what `entries` selects, and to print bare values.
pub proof fn a_probe_is_asked_for_its_entries(entries: Seq<char>)
    ensures
        probe_arguments(entries) == seq!["-v"@, "error"@] + seq!["-show_entries"@, entries] + seq![
            "-of"@,
            "csv=p=0"@,
        ],
{
    assert(probe_arguments(entries) =~= seq!["-v"@, "error"@] + seq!["-show_entries"@, entries]
        + seq!["-of"@, "csv=p=0"@]);
}

/// Of several formats with one number the first is taken, and there is none only where no format
/// has it.
pub proof fn the_first_format_with_the_number_is_taken(
    formats: Seq<VideoFormat>,
    itag: u64,
    from: int,
)
    requires
        0 <= from,
    ensures
        match format_index(formats, itag, from) {
            Some(at) => from <= at < formats.len() && formats[at].itag == itag && forall|k: int|
                from <= k < at ==> (#[trigger] formats[k]).itag != itag,
            None => forall|k: int|
                from <= k < formats.len() ==> (#[trigger] formats[k]).itag != itag,
        },
    decreases formats.len() - from,
{
    if from < formats.len() && formats[from].itag != itag {
        the_first_format_with_the_number_is_taken(formats, itag, from + 1);
    }
}

/// A name promises what its extension does, whatever stem it has and in whatever case it is
/// written: video or audio, and never both.
pub proof fn a_name_promises_what_its_extension_does(stem: Seq<char>, extension: Seq<char>)
    requires
        stem.len() > 0,
        !extension.contains('.'),
    ensures
        ({
            let (video, audio) = promised_streams(stem + seq!['.'] + extension);
            let kind = media_kind(lowered(extension));
            &&& kind == "video"@ ==> video && !audio
            &&& kind == "audio"@ ==> audio && !video
            &&& kind == "other"@ ==> !video && !audio
        }),
{
    a_name_is_stem_and_extension(stem, extension);
    reveal_strlit("video");
    reveal_strlit("audio");
    reveal_strlit("other");
    assert("video"@[0] == 'v' && "audio"@[0] == 'a' && "other"@[0] == 'o');
}

} // verus!
