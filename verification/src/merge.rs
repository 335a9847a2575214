//! Merging a video file and an audio file into one that phones play.

use crate::files::{is_safe_filename, is_safe_name, merged_file_name, merged_name};
use crate::form::{collect_filled_values, filled_values, parse_query, query_pairs};
use crate::http::{error_fields, json_error, json_reply, Response, ResponseView};
use crate::jobs::{advanced_job, completed_job, failed_job, fresh_job, job_id, job_id_text};
use crate::jobs::{started_job_can_be_polled, status_reply_for, with_fresh_job, with_job};
use crate::jobs::{DownloadJobStatus, JobTable, JobView, TableView};
use crate::json::{json_text, new_object, no_fields, object_text, set_field, JsonField, JsonView};
use crate::text::{chars_of, join_texts, joined, lines, optional, push_text, same_text, split_char};
use crate::text::{split_on, stands_at, starts_with, string_of, text_lines, trim, trim_text, trimmed};
use crate::text::{is_space, lemma_trimmed_fixed, lemma_trimmed_keeps_out, two_texts, views};
use crate::text::{splitting_cuts_at_the_first_separator, trimming_takes_off_white_space};
use crate::unicode::{decode, decoded};
use crate::ytdlp::option_has_value;
use vstd::prelude::*;
use vstd::slice::slice_subrange;

verus! {

/// The files that a query names.
pub open spec fn selected_files(query: Option<Seq<char>>) -> Option<Seq<Seq<char>>> {
    match query {
        Some(text) => Some(filled_values(query_pairs(text), "files"@)),
        None => None,
    }
}

/// The files that a query names, if there is a query.
pub fn read_selection(query: &Option<String>) -> (files: Option<Vec<String>>)
    ensures
        selected_files(optional(*query)) == (match files {
            Some(list) => Some(views(list@)),
            None => None,
        }),
{
    match query {
        Some(text) => {
            let pairs = parse_query(text.as_str());
            Some(collect_filled_values(&pairs, "files"))
        },
        None => None,
    }
}

/// Why a selection of files cannot be merged, if it cannot.
pub open spec fn selection_problem(files: Option<Seq<Seq<char>>>) -> Option<Seq<char>> {
    match files {
        None => Some("Missing files"@),
        Some(list) => if list.len() < 2 {
            Some("Select at least two files (one video and one audio) to merge."@)
        } else {
            None
        },
    }
}

/// The files that a request wants merged, or the answer that refuses it.
pub fn merge_selection(query: &Option<String>) -> (selection: Result<Vec<String>, Response>)
    ensures
        match selection {
            Ok(files) => selection_problem(selected_files(optional(*query))) is None && Some(
                views(files@),
            ) == selected_files(optional(*query)),
            Err(reply) => {
                &&& selection_problem(selected_files(optional(*query))) is Some
                &&& reply@ == json_reply(
                    "200 OK"@,
                    error_fields(selection_problem(selected_files(optional(*query)))->0),
                )
            },
        },
{
    match read_selection(query) {
        Some(files) => {
            assert(views(files@).len() == files@.len());
            if files.len() < 2 {
                Err(json_error("Select at least two files (one video and one audio) to merge."))
            } else {
                Ok(files)
            }
        },
        None => Err(json_error("Missing files")),
    }
}

/// Why some file of a list cannot be merged, if one cannot: the first that may not be named or is
/// not there.
pub open spec fn file_problem(names: Seq<Seq<char>>, present: Seq<bool>) -> Option<Seq<char>>
    decreases names.len(),
{
    if names.len() == 0 {
        None
    } else if !is_safe_name(names[0]) {
        Some("Invalid file name: "@ + names[0])
    } else if !present[0] {
        Some("File not found: "@ + names[0])
    } else {
        file_problem(names.drop_first(), present.drop_first())
    }
}

/// The answer that refuses a merge on account of its files, if there is reason to. `present` tells
/// of each file whether it is there.
pub fn check_files(files: &Vec<String>, present: &Vec<bool>) -> (refusal: Option<Response>)
    requires
        present.len() == files.len(),
    ensures
        match refusal {
            Some(reply) => {
                &&& file_problem(views(files@), present@) is Some
                &&& reply@ == json_reply(
                    "200 OK"@,
                    error_fields(file_problem(views(files@), present@)->0),
                )
            },
            None => file_problem(views(files@), present@) is None,
        },
{
    let ghost names = views(files@);
    let mut i: usize = 0;
    assert(names.skip(0) =~= names);
    assert(present@.skip(0) =~= present@);
    while i < files.len()
        invariant
            i <= files.len(),
            present.len() == files.len(),
            names == views(files@),
            file_problem(names, present@) == file_problem(
                names.skip(i as int),
                present@.skip(i as int),
            ),
        decreases files.len() - i,
    {
        assert(names.skip(i as int)[0] == files@[i as int]@);
        assert(names.skip(i as int).drop_first() =~= names.skip(i + 1));
        assert(present@.skip(i as int).drop_first() =~= present@.skip(i + 1));
        if !is_safe_filename(files[i].as_str()) {
            let message = two_texts("Invalid file name: ", files[i].as_str());
            return Some(json_error(message.as_str()));
        }
        if !present[i] {
            let message = two_texts("File not found: ", files[i].as_str());
            return Some(json_error(message.as_str()));
        }
        i = i + 1;
    }
    None
}

/// The first file not before `from` that has video. Of each file is told whether it has video, and
/// whether it has audio.
pub open spec fn first_video(probes: Seq<(bool, bool)>, from: int) -> Option<int>
    decreases probes.len() - from,
{
    if from >= probes.len() {
        None
    } else if probes[from].0 {
        Some(from)
    } else {
        first_video(probes, from + 1)
    }
}

/// The first file not before `from` that has audio and is not the one that gives the video.
pub open spec fn first_audio(
    probes: Seq<(bool, bool)>,
    video: Option<int>,
    from: int,
) -> Option<int>
    decreases probes.len() - from,
{
    if from >= probes.len() {
        None
    } else if probes[from].1 && video != Some(from) {
        Some(from)
    } else {
        first_audio(probes, video, from + 1)
    }
}

/// An optional index.
pub open spec fn index_view(index: Option<usize>) -> Option<int> {
    match index {
        Some(at) => Some(at as int),
        None => None,
    }
}

/// The file that gives the video and the file that gives the audio, in whatever order they were
/// selected.
pub fn claim_inputs(probes: &Vec<(bool, bool)>) -> (claims: (Option<usize>, Option<usize>))
    ensures
        index_view(claims.0) == first_video(probes@, 0),
        index_view(claims.1) == first_audio(probes@, first_video(probes@, 0), 0),
        claims.0 matches Some(at) ==> at < probes.len(),
        claims.1 matches Some(at) ==> at < probes.len(),
{
    let mut video: Option<usize> = None;
    let mut audio: Option<usize> = None;
    let mut i: usize = 0;
    while i < probes.len()
        invariant
            i <= probes.len(),
            video matches Some(at) ==> at < i,
            audio matches Some(at) ==> at < i,
            match video {
                Some(at) => first_video(probes@, 0) == Some(at as int),
                None => first_video(probes@, 0) == first_video(probes@, i as int),
            },
            match audio {
                Some(at) => first_audio(probes@, first_video(probes@, 0), 0) == Some(at as int),
                None => first_audio(probes@, first_video(probes@, 0), 0) == first_audio(
                    probes@,
                    first_video(probes@, 0),
                    i as int,
                ),
            },
        decreases probes.len() - i,
    {
        proof {
            lemma_first_video(probes@, 0);
            lemma_first_video(probes@, i as int);
        }
        let (has_video, has_audio) = probes[i];
        if has_video && video.is_none() {
            video = Some(i);
        } else if has_audio && audio.is_none() {
            audio = Some(i);
        }
        i = i + 1;
    }
    (video, audio)
}

proof fn lemma_first_video(probes: Seq<(bool, bool)>, from: int)
    requires
        0 <= from,
    ensures
        match first_video(probes, from) {
            Some(at) => from <= at < probes.len() && probes[at].0 && forall|k: int|
                from <= k < at ==> !(#[trigger] probes[k]).0,
            None => forall|k: int| from <= k < probes.len() ==> !(#[trigger] probes[k]).0,
        },
    decreases probes.len() - from,
{
    if from < probes.len() && !probes[from].0 {
        lemma_first_video(probes, from + 1);
    }
}

proof fn lemma_first_audio(probes: Seq<(bool, bool)>, video: Option<int>, from: int)
    requires
        0 <= from,
    ensures
        match first_audio(probes, video, from) {
            Some(at) => from <= at < probes.len() && probes[at].1 && video != Some(at),
            None => forall|k: int|
                from <= k < probes.len() && video != Some(k) ==> !(#[trigger] probes[k]).1,
        },
    decreases probes.len() - from,
{
    if from < probes.len() && !(probes[from].1 && video != Some(from)) {
        lemma_first_audio(probes, video, from + 1);
    }
}

/// The first file not before `from` that has audio after all and has another name than the one
/// that gives the video.
pub open spec fn spare_audio(
    names: Seq<Seq<char>>,
    video: Option<int>,
    has_audio: Seq<bool>,
    from: int,
) -> Option<int>
    decreases names.len() - from,
{
    if from >= names.len() {
        None
    } else if has_audio[from] && !(video is Some && names[from] == names[video->0]) {
        Some(from)
    } else {
        spare_audio(names, video, has_audio, from + 1)
    }
}

/// A file to take the audio from where none was claimed. `has_audio` tells what a second look at
/// each file has brought.
pub fn find_spare_audio(
    files: &Vec<String>,
    video: Option<usize>,
    has_audio: &Vec<bool>,
) -> (found: Option<usize>)
    requires
        has_audio.len() == files.len(),
        video matches Some(at) ==> at < files.len(),
    ensures
        index_view(found) == spare_audio(views(files@), index_view(video), has_audio@, 0),
        found matches Some(at) ==> at < files.len(),
{
    let ghost names = views(files@);
    let mut i: usize = 0;
    while i < files.len()
        invariant
            i <= files.len(),
            names == views(files@),
            has_audio.len() == files.len(),
            video matches Some(at) ==> at < files.len(),
            spare_audio(names, index_view(video), has_audio@, 0) == spare_audio(
                names,
                index_view(video),
                has_audio@,
                i as int,
            ),
        decreases files.len() - i,
    {
        let gives_video = match video {
            Some(at) => {
                assert(names[at as int] == files@[at as int]@);
                assert(names[i as int] == files@[i as int]@);
                same_text(files[i].as_str(), files[at].as_str())
            },
            None => false,
        };
        if has_audio[i] && !gives_video {
            return Some(i);
        }
        i = i + 1;
    }
    None
}

/// The two files that are claimed differ, the first has video and the second has audio; and a
/// claim is left open only where no file can fill it.
pub proof fn claimed_inputs_fit(probes: Seq<(bool, bool)>)
    ensures
        ({
            let video = first_video(probes, 0);
            let audio = first_audio(probes, video, 0);
            &&& video is Some ==> 0 <= video->0 < probes.len() && probes[video->0].0
            &&& audio is Some ==> 0 <= audio->0 < probes.len() && probes[audio->0].1
            &&& video is Some && audio is Some ==> video->0 != audio->0
            &&& video is None ==> forall|k: int| 0 <= k < probes.len() ==> !(#[trigger] probes[k]).0
            &&& audio is None ==> forall|k: int|
                0 <= k < probes.len() && video != Some(k) ==> !(#[trigger] probes[k]).1
        }),
{
    lemma_first_video(probes, 0);
    lemma_first_audio(probes, first_video(probes, 0), 0);
}

/// Where no audio was claimed, a second look finds some only if it brings something else than the
/// first.
pub proof fn second_look_repeats_the_first(names: Seq<Seq<char>>, probes: Seq<(bool, bool)>)
    requires
        names.len() == probes.len(),
        first_audio(probes, first_video(probes, 0), 0) is None,
    ensures
        spare_audio(
            names,
            first_video(probes, 0),
            probes.map_values(|probe: (bool, bool)| probe.1),
            0,
        ) is None,
{
    lemma_no_spare(names, probes, 0);
}

proof fn lemma_no_spare(names: Seq<Seq<char>>, probes: Seq<(bool, bool)>, from: int)
    requires
        names.len() == probes.len(),
        0 <= from,
        first_audio(probes, first_video(probes, 0), 0) is None,
    ensures
        spare_audio(
            names,
            first_video(probes, 0),
            probes.map_values(|probe: (bool, bool)| probe.1),
            from,
        ) is None,
    decreases names.len() - from,
{
    if from < names.len() {
        lemma_first_audio(probes, first_video(probes, 0), 0);
        assert(probes.map_values(|probe: (bool, bool)| probe.1)[from] == probes[from].1);
        lemma_no_spare(names, probes, from + 1);
    }
}

/// A merge that can be run.
pub struct MergePlan {
    /// The index of the file that gives the video.
    pub video: usize,
    /// The index of the file that gives the audio.
    pub audio: usize,
    /// The name of the file that is made.
    pub output: String,
}

/// The two files of a merge: video first, then audio. Where no audio is claimed, what a second
/// look at the files brings decides.
pub open spec fn merge_inputs(
    names: Seq<Seq<char>>,
    probes: Seq<(bool, bool)>,
    second_look: Seq<bool>,
) -> (Option<int>, Option<int>) {
    let video = first_video(probes, 0);
    let claimed = first_audio(probes, video, 0);
    let audio = if claimed is Some {
        claimed
    } else {
        spare_audio(names, video, second_look, 0)
    };
    (video, audio)
}

/// Whether the audio of a merge is still missing once every file was probed, so that the files
/// are to be looked at a second time.
pub fn needs_second_look(probes: &Vec<(bool, bool)>) -> (needed: bool)
    ensures
        needed == (first_audio(probes@, first_video(probes@, 0), 0) is None),
{
    claim_inputs(probes).1.is_none()
}

/// The first file not before `from` that has another name than the one that gives the video.
pub open spec fn other_file(names: Seq<Seq<char>>, video: Option<int>, from: int) -> Option<int>
    decreases names.len() - from,
{
    if from >= names.len() {
        None
    } else if video is Some && names[from] == names[video->0] {
        other_file(names, video, from + 1)
    } else {
        Some(from)
    }
}

/// The file to look at next when the files are looked at a second time. `looked` tells of the
/// files before it whether one of them has audio after all; the first that has ends the search.
pub fn next_look(files: &Vec<String>, video: Option<usize>, looked: &Vec<bool>) -> (next: Option<
    usize,
>)
    requires
        video matches Some(at) ==> at < files.len(),
    ensures
        index_view(next) == (if looked@.contains(true) {
            None
        } else {
            other_file(views(files@), index_view(video), looked.len() as int)
        }),
        next matches Some(at) ==> looked.len() <= at < files.len(),
{
    let mut k: usize = 0;
    while k < looked.len()
        invariant
            k <= looked.len(),
            forall|i: int| 0 <= i < k ==> !#[trigger] looked@[i],
        decreases looked.len() - k,
    {
        if looked[k] {
            assert(looked@[k as int] == true);
            return None;
        }
        k = k + 1;
    }
    let ghost names = views(files@);
    let mut i: usize = looked.len();
    while i < files.len()
        invariant
            looked.len() <= i,
            !looked@.contains(true),
            names == views(files@),
            video matches Some(at) ==> at < files.len(),
            other_file(names, index_view(video), looked.len() as int) == other_file(
                names,
                index_view(video),
                i as int,
            ),
        decreases files.len() - i,
    {
        let gives_video = match video {
            Some(at) => {
                assert(names[at as int] == files@[at as int]@);
                assert(names[i as int] == files@[i as int]@);
                same_text(files[i].as_str(), files[at].as_str())
            },
            None => false,
        };
        if !gives_video {
            return Some(i);
        }
        i = i + 1;
    }
    None
}

/// File `video` is the first that has video, and file `audio` the first of the others that has
/// audio.
pub open spec fn is_first_pair(probes: Seq<(bool, bool)>, video: int, audio: int) -> bool {
    &&& 0 <= video < probes.len()
    &&& 0 <= audio < probes.len()
    &&& probes[video].0
    &&& forall|k: int| 0 <= k < video ==> !(#[trigger] probes[k]).0
    &&& audio != video
    &&& probes[audio].1
    &&& forall|k: int| 0 <= k < audio && k != video ==> !(#[trigger] probes[k]).1
}

/// What is to be merged into what, or the answer that refuses the merge for want of a file with
/// video or one with audio. `probes` tells of each file whether it has video and whether it has
/// audio, `second_look` whether it has audio after all.
pub fn plan_merge(
    files: &Vec<String>,
    probes: &Vec<(bool, bool)>,
    second_look: &Vec<bool>,
) -> (plan: Result<MergePlan, Response>)
    requires
        probes.len() == files.len(),
        second_look.len() == files.len(),
    ensures
        ({
            let inputs = merge_inputs(views(files@), probes@, second_look@);
            match plan {
                Ok(chosen) => {
                    &&& inputs == (Some(chosen.video as int), Some(chosen.audio as int))
                    &&& chosen.video < files.len()
                    &&& chosen.audio < files.len()
                    &&& chosen.output@ == merged_name(views(files@))
                },
                Err(reply) => {
                    &&& inputs.0 is None || inputs.1 is None
                    &&& reply@ == json_reply(
                        "200 OK"@,
                        error_fields(
                            "Select one file that has video and one that has audio (e.g. an itag137 .mp4 video and an itag251 .webm audio)."@,
                        ),
                    )
                },
            }
        }),
        forall|video: int, audio: int| #[trigger]
            is_first_pair(probes@, video, audio) ==> plan is Ok && plan->Ok_0.video == video
                && plan->Ok_0.audio == audio,
{
    proof {
        assert forall|video: int, audio: int| #[trigger]
            is_first_pair(probes@, video, audio) implies merge_inputs(
            views(files@),
            probes@,
            second_look@,
        ) == (Some(video), Some(audio)) by {
            lemma_video_is_first(probes@, video, 0);
            lemma_audio_is_first(probes@, video, audio, 0);
        }
    }
    let (video, claimed) = claim_inputs(probes);
    let audio = match claimed {
        Some(at) => Some(at),
        None => find_spare_audio(files, video, second_look),
    };
    match (video, audio) {
        (Some(video), Some(audio)) => Ok(
            MergePlan { video, audio, output: merged_file_name(files) },
        ),
        _ => Err(
            json_error(
                "Select one file that has video and one that has audio (e.g. an itag137 .mp4 video and an itag251 .webm audio).",
            ),
        ),
    }
}

/// The answer that says under which id a merge runs.
pub open spec fn merge_started_reply(number: u64) -> ResponseView {
    json_reply(
        "200 OK"@,
        no_fields().insert("status"@, JsonView::Text("started"@)).insert(
            "jobId"@,
            JsonView::Text(job_id_text(number)),
        ),
    )
}

/// Enters a merge as a job.
pub fn start_merge(table: &mut JobTable) -> (started: (u64, Response))
    ensures
        started.0 == old(table)@.next,
        started.1@ == merge_started_reply(started.0),
        final(table)@ == with_fresh_job(old(table)@),
{
    let number = table.start();
    let mut object = new_object();
    set_field(&mut object, "status", JsonField::Text("started".to_owned()));
    set_field(&mut object, "jobId", JsonField::Text(job_id(number)));
    let reply = Response {
        status: "200 OK".to_owned(),
        body: object_text(object),
        content_type: "application/json".to_owned(),
    };
    (number, reply)
}

/// The arguments that make the converter merge two files: H.264 video and AAC audio, playable
/// from the start, with its progress on standard output.
pub open spec fn merge_arguments(video: Seq<char>, audio: Seq<char>, output: Seq<char>) -> Seq<
    Seq<char>,
> {
    seq![
        "-y"@,
        "-i"@,
        video,
        "-i"@,
        audio,
        "-map"@,
        "0:v:0"@,
        "-map"@,
        "1:a:0"@,
        "-c:v"@,
        "libx264"@,
        "-profile:v"@,
        "high"@,
        "-pix_fmt"@,
        "yuv420p"@,
        "-crf"@,
        "23"@,
        "-preset"@,
        "fast"@,
        "-c:a"@,
        "aac"@,
        "-b:a"@,
        "128k"@,
        "-movflags"@,
        "+faststart"@,
        "-progress"@,
        "pipe:1"@,
        "-nostats"@,
        output,
    ]
}

/// The arguments that make the converter merge two files.
pub fn merge_args(video: &str, audio: &str, output: &str) -> (args: Vec<String>)
    ensures
        views(args@) == merge_arguments(video@, audio@, output@),
{
    let mut args: Vec<String> = Vec::new();
    push_text(&mut args, "-y");
    push_text(&mut args, "-i");
    push_text(&mut args, video);
    push_text(&mut args, "-i");
    push_text(&mut args, audio);
    push_text(&mut args, "-map");
    push_text(&mut args, "0:v:0");
    push_text(&mut args, "-map");
    push_text(&mut args, "1:a:0");
    push_text(&mut args, "-c:v");
    push_text(&mut args, "libx264");
    push_text(&mut args, "-profile:v");
    push_text(&mut args, "high");
    push_text(&mut args, "-pix_fmt");
    push_text(&mut args, "yuv420p");
    push_text(&mut args, "-crf");
    push_text(&mut args, "23");
    push_text(&mut args, "-preset");
    push_text(&mut args, "fast");
    push_text(&mut args, "-c:a");
    push_text(&mut args, "aac");
    push_text(&mut args, "-b:a");
    push_text(&mut args, "128k");
    push_text(&mut args, "-movflags");
    push_text(&mut args, "+faststart");
    push_text(&mut args, "-progress");
    push_text(&mut args, "pipe:1");
    push_text(&mut args, "-nostats");
    push_text(&mut args, output);
    assert(views(args@) =~= merge_arguments(video@, audio@, output@));
    args
}

/// The time that a progress line of the converter states.
pub open spec fn progress_time(line: Seq<char>) -> Option<Seq<char>> {
    if starts_with(trimmed(line), "out_time="@) {
        Some(trimmed(line).skip("out_time="@.len() as int))
    } else {
        None
    }
}

/// Hours, minutes and seconds of a time, as they are written in it.
pub open spec fn time_fields(time: Seq<char>) -> Option<(Seq<char>, Seq<char>, Seq<char>)> {
    let pieces = split_char(trimmed(time), ':');
    if pieces.len() < 3 {
        None
    } else {
        Some((trimmed(pieces[0]), trimmed(pieces[1]), trimmed(pieces[2])))
    }
}

/// The time that a progress line of the converter states.
pub fn read_progress_time(line: &str) -> (time: Option<String>)
    ensures
        optional(time) == progress_time(line@),
{
    let chars = chars_of(line);
    let text = trim(chars.as_slice());
    let mark = chars_of("out_time=");
    if stands_at(text, mark.as_slice(), 0) {
        assert(text@.subrange(mark@.len() as int, text@.len() as int) =~= text@.skip(
            mark@.len() as int,
        ));
        Some(string_of(slice_subrange(text, mark.len(), text.len())))
    } else {
        None
    }
}

/// Hours, minutes and seconds of a time, as they are written in it.
pub fn split_time(time: &str) -> (fields: Option<(String, String, String)>)
    ensures
        time_fields(time@) == (match fields {
            Some((hours, minutes, seconds)) => Some((hours@, minutes@, seconds@)),
            None => None,
        }),
{
    let chars = chars_of(time);
    let pieces = split_on(trim(chars.as_slice()), ':');
    assert(views(pieces@).len() == pieces@.len());
    if pieces.len() < 3 {
        return None;
    }
    assert(views(pieces@)[0] == pieces@[0]@);
    assert(views(pieces@)[1] == pieces@[1]@);
    assert(views(pieces@)[2] == pieces@[2]@);
    Some(
        (
            trim_text(pieces[0].as_str()),
            trim_text(pieces[1].as_str()),
            trim_text(pieces[2].as_str()),
        ),
    )
}

/// The progress that is shown while the converter runs: whole percents, never one hundred, which
/// is for when it has ended.
pub open spec fn capped_percent(percent: i64) -> u8 {
    if percent < 0 {
        0
    } else if percent > 99 {
        99
    } else {
        percent as u8
    }
}

/// The progress that is shown while the converter runs.
pub fn running_percent(percent: i64) -> (shown: u8)
    ensures
        shown == capped_percent(percent),
{
    if percent < 0 {
        0
    } else if percent > 99 {
        99
    } else {
        percent as u8
    }
}

/// The lines of `list` that are not blank.
pub open spec fn filled_lines(list: Seq<Seq<char>>) -> Seq<Seq<char>>
    decreases list.len(),
{
    if list.len() == 0 {
        Seq::empty()
    } else if trimmed(list.last()).len() > 0 {
        filled_lines(list.drop_last()).push(list.last())
    } else {
        filled_lines(list.drop_last())
    }
}

/// The last six lines that are not blank, in one line.
pub open spec fn tail_text(text: Seq<char>) -> Seq<char> {
    let kept = filled_lines(lines(text));
    joined(
        if kept.len() > 6 {
            kept.skip(kept.len() - 6)
        } else {
            kept
        },
        " | "@,
    )
}

/// The last six lines that are not blank, in one line.
pub fn text_tail(text: &str) -> (tail: String)
    ensures
        tail@ == tail_text(text@),
{
    let list = text_lines(text);
    let ghost all = lines(text@);
    let mut kept: Vec<String> = Vec::new();
    let mut i: usize = 0;
    assert(views(kept@) =~= filled_lines(all.take(0)));
    while i < list.len()
        invariant
            i <= list.len(),
            all == lines(text@),
            views(list@) == all,
            views(kept@) == filled_lines(all.take(i as int)),
        decreases list.len() - i,
    {
        assert(all.take(i + 1).drop_last() =~= all.take(i as int));
        assert(all.take(i + 1).last() == list@[i as int]@);
        let line = trim_text(list[i].as_str());
        if !line.as_str().is_empty() {
            push_text(&mut kept, list[i].as_str());
        }
        i = i + 1;
    }
    assert(all.take(i as int) =~= all);
    let mut last: Vec<String> = Vec::new();
    let start: usize = if kept.len() > 6 {
        kept.len() - 6
    } else {
        0
    };
    let ghost filled = filled_lines(all);
    assert(views(kept@).len() == kept@.len());
    let mut k: usize = start;
    assert(views(last@) =~= filled.subrange(start as int, start as int));
    while k < kept.len()
        invariant
            start <= k <= kept.len(),
            filled == views(kept@),
            views(last@) == filled.subrange(start as int, k as int),
        decreases kept.len() - k,
    {
        push_text(&mut last, kept[k].as_str());
        k = k + 1;
        assert(views(last@) =~= filled.subrange(start as int, k as int));
    }
    assert(views(last@) =~= (if filled.len() > 6 {
        filled.skip(filled.len() - 6)
    } else {
        filled
    }));
    join_texts(&last, " | ")
}

/// The last six lines that are not blank of what the converter wrote as errors, in one line.
pub fn ffmpeg_stderr_tail(stderr: &[u8]) -> (tail: String)
    ensures
        tail@ == tail_text(decoded(stderr@)),
{
    let text = decode(stderr);
    text_tail(text.as_str())
}

/// What is reported when the converter cannot be run.
pub open spec fn spawn_failure_text(converter: Seq<char>, error: Seq<char>) -> Seq<char> {
    "Could not run ffmpeg ("@ + converter + "): "@ + error
        + ". Install FFmpeg and add it to PATH, or place ffmpeg.exe next to downloader.exe."@
}

/// What is reported when the converter cannot be run.
fn spawn_failure(converter: &str, error: &str) -> (message: String)
    ensures
        message@ == spawn_failure_text(converter@, error@),
{
    let mut message = two_texts("Could not run ffmpeg (", converter);
    message.append("): ");
    message.append(error);
    message.append(
        ". Install FFmpeg and add it to PATH, or place ffmpeg.exe next to downloader.exe.",
    );
    message
}

/// How the converter ended.
pub enum MergeEnd {
    /// The converter, named first, could not be run.
    NotRun(String, String),
    /// It was run, but its output cannot be read.
    NoOutput,
    Success,
    /// It failed, and wrote this as errors.
    Failed(Vec<u8>),
    /// Its end could not be awaited.
    Lost(String),
}

/// The job of a merge into the file `name` once the converter has ended.
pub open spec fn merge_ended(job: JobView, name: Seq<char>, end: MergeEnd) -> JobView {
    match end {
        MergeEnd::NotRun(converter, error) => failed_job(
            job,
            spawn_failure_text(converter@, error@),
        ),
        MergeEnd::NoOutput => failed_job(job, "ffmpeg: missing stdout"@),
        MergeEnd::Success => completed_job(job, name, "Merged into "@ + name),
        MergeEnd::Failed(stderr) => failed_job(
            job,
            "ffmpeg failed: "@ + tail_text(decoded(stderr@)),
        ),
        MergeEnd::Lost(error) => failed_job(job, "ffmpeg wait failed: "@ + error@),
    }
}

/// Notes the end of a merge into the file `name`.
pub fn finish_merge(table: &mut JobTable, number: u64, name: &str, end: MergeEnd)
    ensures
        final(table)@ == with_job(
            old(table)@,
            number,
            merge_ended(old(table)@.jobs[number], name@, end),
        ),
{
    match end {
        MergeEnd::NotRun(converter, error) => {
            let message = spawn_failure(converter.as_str(), error.as_str());
            table.set_job_failed(number, message);
        },
        MergeEnd::NoOutput => {
            table.set_job_failed(number, "ffmpeg: missing stdout".to_owned());
        },
        MergeEnd::Success => {
            let message = two_texts("Merged into ", name);
            table.complete(number, name.to_owned(), message);
        },
        MergeEnd::Failed(stderr) => {
            let tail = ffmpeg_stderr_tail(stderr.as_slice());
            table.set_job_failed(number, two_texts("ffmpeg failed: ", tail.as_str()));
        },
        MergeEnd::Lost(error) => {
            table.set_job_failed(number, two_texts("ffmpeg wait failed: ", error.as_str()));
        },
    }
}

/// The job of a merge that runs, once it has made this progress, in percents of the duration.
pub open spec fn running_merge(percents: Seq<i64>) -> JobView
    decreases percents.len(),
{
    if percents.len() == 0 {
        fresh_job()
    } else {
        advanced_job(running_merge(percents.drop_last()), capped_percent(percents.last()))
    }
}

/// Whatever progress a merge makes, it is at most at 99 percent while it runs and when it fails;
/// when it has ended well, it is at one hundred, with its file and a message and without an error.
pub proof fn merges_are_done_at_one_hundred(percents: Seq<i64>, name: Seq<char>, end: MergeEnd)
    ensures
        running_merge(percents) == (JobView {
            percent: running_merge(percents).percent,
            ..fresh_job()
        }),
        running_merge(percents).percent <= 99,
        ({
            let ended = merge_ended(running_merge(percents), name, end);
            if end is Success {
                ended == (JobView {
                    percent: 100,
                    status: DownloadJobStatus::Completed,
                    message: Some("Merged into "@ + name),
                    path: Some(name),
                    error: None,
                })
            } else {
                &&& ended.percent <= 99
                &&& ended.status == DownloadJobStatus::Failed
                &&& ended.error is Some
                &&& ended.path is None
                &&& ended.message is None
            }
        }),
    decreases percents.len(),
{
    if percents.len() > 0 {
        merges_are_done_at_one_hundred(percents.drop_last(), name, end);
    }
}

/// How far a request for a merge is, and what it waits for.
pub enum MergeStage {
    /// The query.
    Selecting,
    /// Whether each file is there.
    Checking,
    /// What each file has.
    Probing,
    /// Whether this file has audio after all.
    Looking(usize),
    /// The duration of the first of these files, which gives the video; the second gives the audio.
    Measuring(usize, usize),
    /// Nothing: it is answered.
    Answered,
}

/// How far a request for a merge is, and what it waits for.
pub enum MergeStageView {
    Selecting,
    Checking,
    Probing,
    Looking(int),
    Measuring(int, int),
    Answered,
}

impl View for MergeStage {
    type V = MergeStageView;

    open spec fn view(&self) -> MergeStageView {
        match *self {
            MergeStage::Selecting => MergeStageView::Selecting,
            MergeStage::Checking => MergeStageView::Checking,
            MergeStage::Probing => MergeStageView::Probing,
            MergeStage::Looking(at) => MergeStageView::Looking(at as int),
            MergeStage::Measuring(video, audio) => MergeStageView::Measuring(
                video as int,
                audio as int,
            ),
            MergeStage::Answered => MergeStageView::Answered,
        }
    }
}

/// What has become known for a merge.
pub enum MergeEvent {
    Asked(Option<String>),
    /// Of each file, whether it is there.
    Checked(Vec<bool>),
    /// Of each file, whether it has video and whether it has audio.
    Probed(Vec<(bool, bool)>),
    /// Whether the file has audio after all.
    Looked(bool),
    /// The duration was looked up.
    Measured,
}

/// What to do next for a merge.
pub enum MergeAction {
    /// Look whether each file is there.
    Check,
    /// Find out what each file has.
    Probe,
    /// Find out again whether this file has audio.
    Look(usize),
    /// Look up the duration of this file.
    Measure(usize),
    /// Give this answer, and do no more.
    Refuse(Response),
    /// Give this answer, and run the merge as the job with this number.
    Run(u64, MergePlan, Response),
}

/// What to do next for a merge.
pub enum MergeActionView {
    Check,
    Probe,
    Look(int),
    Measure(int),
    Refuse(ResponseView),
    Run { number: u64, video: int, audio: int, output: Seq<char>, reply: ResponseView },
}

impl View for MergeAction {
    type V = MergeActionView;

    open spec fn view(&self) -> MergeActionView {
        match *self {
            MergeAction::Check => MergeActionView::Check,
            MergeAction::Probe => MergeActionView::Probe,
            MergeAction::Look(at) => MergeActionView::Look(at as int),
            MergeAction::Measure(at) => MergeActionView::Measure(at as int),
            MergeAction::Refuse(reply) => MergeActionView::Refuse(reply@),
            MergeAction::Run(number, plan, reply) => MergeActionView::Run {
                number,
                video: plan.video as int,
                audio: plan.audio as int,
                output: plan.output@,
                reply: reply@,
            },
        }
    }
}

/// A request for a merge on its way to its answer.
pub struct MergeRequest {
    stage: MergeStage,
    files: Vec<String>,
    probes: Vec<(bool, bool)>,
    looked: Vec<bool>,
}

/// A request for a merge on its way to its answer.
#[verifier::ext_equal]
pub struct MergeView {
    pub stage: MergeStageView,
    /// The files that were selected.
    pub files: Seq<Seq<char>>,
    pub probes: Seq<(bool, bool)>,
    /// Whether the files had audio that were looked at again.
    pub looked: Seq<bool>,
}

impl View for MergeRequest {
    type V = MergeView;

    closed spec fn view(&self) -> MergeView {
        MergeView {
            stage: self.stage@,
            files: views(self.files@),
            probes: self.probes@,
            looked: self.looked@,
        }
    }
}

/// An event is the one that the request waits for, and tells of each file.
pub open spec fn awaits(request: MergeView, event: MergeEvent) -> bool {
    match event {
        MergeEvent::Asked(_) => request.stage is Selecting,
        MergeEvent::Checked(present) => request.stage is Checking && present@.len()
            == request.files.len(),
        MergeEvent::Probed(probes) => request.stage is Probing && probes@.len()
            == request.files.len(),
        MergeEvent::Looked(_) => request.stage is Looking,
        MergeEvent::Measured => request.stage is Measuring,
    }
}

/// What is known at each stage: at least two files; from the probes on, all with safe names; a file
/// to look at again only among those not looked at yet; and at the end two different files, the
/// first of them with video.
pub open spec fn is_in_order(request: MergeView) -> bool {
    let count = request.files.len();
    let checked = count >= 2 && forall|k: int|
        0 <= k < count ==> is_safe_name(#[trigger] request.files[k]);
    match request.stage {
        MergeStageView::Selecting => true,
        MergeStageView::Checking => count >= 2,
        MergeStageView::Probing => checked,
        MergeStageView::Looking(at) => {
            &&& checked
            &&& request.probes.len() == count
            &&& request.looked.len() <= at < count
        },
        MergeStageView::Measuring(video, audio) => {
            &&& checked
            &&& request.probes.len() == count
            &&& 0 <= video < count
            &&& 0 <= audio < count
            &&& video != audio
            &&& request.probes[video].0
        },
        MergeStageView::Answered => true,
    }
}

/// `looked` with nothing found at the files up to `count`.
pub open spec fn padded(looked: Seq<bool>, count: nat) -> Seq<bool> {
    if looked.len() < count {
        looked + Seq::new((count - looked.len()) as nat, |k: int| false)
    } else {
        looked
    }
}

/// The answer that refuses a merge, with the request that it ends.
pub open spec fn refused(request: MergeView, message: Seq<char>) -> (MergeView, MergeActionView) {
    (
        MergeView { stage: MergeStageView::Answered, ..request },
        MergeActionView::Refuse(json_reply("200 OK"@, error_fields(message))),
    )
}

/// The file to look at again, if one is.
pub open spec fn file_to_look_at(request: MergeView) -> Option<int> {
    let video = first_video(request.probes, 0);
    if first_audio(request.probes, video, 0) is Some || request.looked.contains(true) {
        None
    } else {
        other_file(request.files, video, request.looked.len() as int)
    }
}

/// What follows once a file was probed or looked at again: another look, or the choice of the two
/// files.
pub open spec fn looked_or_chosen(request: MergeView) -> (MergeView, MergeActionView) {
    match file_to_look_at(request) {
        Some(at) => (
            MergeView { stage: MergeStageView::Looking(at), ..request },
            MergeActionView::Look(at),
        ),
        None => match merge_inputs(
            request.files,
            request.probes,
            padded(request.looked, request.files.len()),
        ) {
            (Some(video), Some(audio)) => (
                MergeView {
                    stage: MergeStageView::Measuring(video, audio),
                    ..request
                },
                MergeActionView::Measure(video),
            ),
            _ => refused(
                request,
                "Select one file that has video and one that has audio (e.g. an itag137 .mp4 video and an itag251 .webm audio)."@,
            ),
        },
    }
}

/// The request, the jobs, and what to do next, after an event.
pub open spec fn merge_step(request: MergeView, table: TableView, event: MergeEvent) -> (
    MergeView,
    TableView,
    MergeActionView,
) {
    match event {
        MergeEvent::Asked(query) => {
            let selected = selected_files(optional(query));
            match selection_problem(selected) {
                Some(message) => {
                    let (after, action) = refused(request, message);
                    (after, table, action)
                },
                None => (
                    MergeView { stage: MergeStageView::Checking, files: selected->0, ..request },
                    table,
                    MergeActionView::Check,
                ),
            }
        },
        MergeEvent::Checked(present) => match file_problem(request.files, present@) {
            Some(message) => {
                let (after, action) = refused(request, message);
                (after, table, action)
            },
            None => (
                MergeView { stage: MergeStageView::Probing, ..request },
                table,
                MergeActionView::Probe,
            ),
        },
        MergeEvent::Probed(probes) => {
            let (after, action) = looked_or_chosen(
                MergeView { probes: probes@, looked: Seq::empty(), ..request },
            );
            (after, table, action)
        },
        MergeEvent::Looked(has_audio) => {
            let before = padded(request.looked, request.stage->Looking_0 as nat);
            let (after, action) = looked_or_chosen(
                MergeView { looked: before.push(has_audio), ..request },
            );
            (after, table, action)
        },
        MergeEvent::Measured => (
            MergeView { stage: MergeStageView::Answered, ..request },
            with_fresh_job(table),
            MergeActionView::Run {
                number: table.next,
                video: request.stage->Measuring_0,
                audio: request.stage->Measuring_1,
                output: merged_name(request.files),
                reply: merge_started_reply(table.next),
            },
        ),
    }
}

/// Fills up what is known of the files with nothing found.
fn pad(looked: &mut Vec<bool>, count: usize)
    ensures
        final(looked)@ == padded(old(looked)@, count as nat),
{
    let ghost start = looked@.len();
    while looked.len() < count
        invariant
            start == old(looked)@.len(),
            start <= looked@.len(),
            looked@.len() <= count || looked@.len() == start,
            looked@ == old(looked)@ + Seq::new((looked@.len() - start) as nat, |k: int| false),
        decreases count - looked.len(),
    {
        looked.push(false);
        assert(looked@ =~= old(looked)@ + Seq::new((looked@.len() - start) as nat, |k: int| false));
    }
    assert(looked@ =~= padded(old(looked)@, count as nat));
}

impl MergeRequest {
    /// The stages are gone through in their order.
    #[verifier::type_invariant]
    spec fn goes_in_order(self) -> bool {
        is_in_order(self@)
    }

    /// A request that has just arrived.
    pub fn new() -> (request: MergeRequest)
        ensures
            request@ == (MergeView {
                stage: MergeStageView::Selecting,
                files: Seq::empty(),
                probes: Seq::empty(),
                looked: Seq::empty(),
            }),
            is_in_order(request@),
    {
        let request = MergeRequest {
            stage: MergeStage::Selecting,
            files: Vec::new(),
            probes: Vec::new(),
            looked: Vec::new(),
        };
        assert(request@.files =~= Seq::empty());
        request
    }

    /// The files that were selected.
    pub fn files(&self) -> (files: &Vec<String>)
        ensures
            views(files@) == self@.files,
    {
        &self.files
    }

    /// Takes in what has become known, and says what to do next. A job is started for a merge that
    /// can be run, and for no other.
    pub fn step(self, table: &mut JobTable, event: MergeEvent) -> (next: (
        MergeRequest,
        MergeAction,
    ))
        requires
            awaits(self@, event),
        ensures
            (next.0@, final(table)@, next.1@) == merge_step(self@, old(table)@, event),
            is_in_order(next.0@),
    {
        proof {
            use_type_invariant(&self);
            merges_go_in_order(self@, table@, event);
        }
        match event {
            MergeEvent::Asked(query) => match merge_selection(&query) {
                Ok(files) => {
                    let next = MergeRequest {
                        stage: MergeStage::Checking,
                        files,
                        probes: self.probes,
                        looked: self.looked,
                    };
                    (next, MergeAction::Check)
                },
                Err(reply) => (self.answered(), MergeAction::Refuse(reply)),
            },
            MergeEvent::Checked(present) => match check_files(&self.files, &present) {
                Some(reply) => (self.answered(), MergeAction::Refuse(reply)),
                None => {
                    let next = MergeRequest {
                        stage: MergeStage::Probing,
                        files: self.files,
                        probes: self.probes,
                        looked: self.looked,
                    };
                    (next, MergeAction::Probe)
                },
            },
            MergeEvent::Probed(probes) => look_or_choose(self.files, probes, Vec::new()),
            MergeEvent::Looked(has_audio) => {
                let mut looked = self.looked;
                if let MergeStage::Looking(at) = self.stage {
                    pad(&mut looked, at);
                    looked.push(has_audio);
                }
                look_or_choose(self.files, self.probes, looked)
            },
            MergeEvent::Measured => {
                let output = merged_file_name(&self.files);
                let (video, audio) = match self.stage {
                    MergeStage::Measuring(video, audio) => (video, audio),
                    _ => (0, 0),
                };
                let (number, reply) = start_merge(table);
                let plan = MergePlan { video, audio, output };
                (self.answered(), MergeAction::Run(number, plan, reply))
            },
        }
    }

    /// The request once it is answered.
    fn answered(self) -> (request: MergeRequest)
        ensures
            request@ == (MergeView { stage: MergeStageView::Answered, ..self@ }),
    {
        MergeRequest {
            stage: MergeStage::Answered,
            files: self.files,
            probes: self.probes,
            looked: self.looked,
        }
    }
}

/// Another look at a file, or the choice of the two files.
fn look_or_choose(files: Vec<String>, probes: Vec<(bool, bool)>, looked: Vec<bool>) -> (next: (
    MergeRequest,
    MergeAction,
))
    requires
        files.len() >= 2,
        probes.len() == files.len(),
        looked.len() <= files.len(),
        forall|k: int| 0 <= k < files.len() ==> is_safe_name(#[trigger] views(files@)[k]),
    ensures
        (next.0@, next.1@) == looked_or_chosen(
            MergeView {
                stage: MergeStageView::Probing,
                files: views(files@),
                probes: probes@,
                looked: looked@,
            },
        ),
{
    let ghost before = MergeView {
        stage: MergeStageView::Probing,
        files: views(files@),
        probes: probes@,
        looked: looked@,
    };
    proof {
        lemma_look_in_order(before);
    }
    if needs_second_look(&probes) {
        let (video, _) = claim_inputs(&probes);
        if let Some(at) = next_look(&files, video, &looked) {
            let next = MergeRequest { stage: MergeStage::Looking(at), files, probes, looked };
            return (next, MergeAction::Look(at));
        }
    }
    let mut second_look: Vec<bool> = Vec::new();
    let mut k: usize = 0;
    while k < looked.len()
        invariant
            k <= looked.len(),
            second_look@ == looked@.take(k as int),
        decreases looked.len() - k,
    {
        second_look.push(looked[k]);
        k = k + 1;
        assert(second_look@ =~= looked@.take(k as int));
    }
    assert(looked@.take(k as int) =~= looked@);
    pad(&mut second_look, files.len());
    match plan_merge(&files, &probes, &second_look) {
        Ok(plan) => {
            let stage = MergeStage::Measuring(plan.video, plan.audio);
            let next = MergeRequest { stage, files, probes, looked };
            (next, MergeAction::Measure(plan.video))
        },
        Err(reply) => {
            let next = MergeRequest { stage: MergeStage::Answered, files, probes, looked };
            (next, MergeAction::Refuse(reply))
        },
    }
}

proof fn lemma_other_file(names: Seq<Seq<char>>, video: Option<int>, from: int)
    ensures
        other_file(names, video, from) matches Some(at) ==> from <= at < names.len(),
    decreases names.len() - from,
{
    if from < names.len() && video is Some && names[from] == names[video->0] {
        lemma_other_file(names, video, from + 1);
    }
}

proof fn lemma_spare_audio(
    names: Seq<Seq<char>>,
    video: Option<int>,
    has_audio: Seq<bool>,
    from: int,
)
    ensures
        spare_audio(names, video, has_audio, from) matches Some(at) ==> from <= at < names.len()
            && video != Some(at),
    decreases names.len() - from,
{
    if from < names.len() && !(has_audio[from] && !(video is Some && names[from]
        == names[video->0])) {
        lemma_spare_audio(names, video, has_audio, from + 1);
    }
}

proof fn lemma_look_in_order(request: MergeView)
    requires
        request.files.len() >= 2,
        forall|k: int|
            0 <= k < request.files.len() ==> is_safe_name(#[trigger] request.files[k]),
        request.probes.len() == request.files.len(),
    ensures
        is_in_order(looked_or_chosen(request).0),
{
    let video = first_video(request.probes, 0);
    let looks = padded(request.looked, request.files.len());
    lemma_first_video(request.probes, 0);
    lemma_first_audio(request.probes, video, 0);
    lemma_other_file(request.files, video, request.looked.len() as int);
    lemma_spare_audio(request.files, video, looks, 0);
}

proof fn lemma_no_file_problem(names: Seq<Seq<char>>, present: Seq<bool>)
    requires
        names.len() == present.len(),
        file_problem(names, present) is None,
    ensures
        forall|k: int| 0 <= k < names.len() ==> is_safe_name(#[trigger] names[k]) && present[k],
    decreases names.len(),
{
    if names.len() > 0 {
        lemma_no_file_problem(names.drop_first(), present.drop_first());
        assert forall|k: int| 0 <= k < names.len() implies is_safe_name(#[trigger] names[k])
            && present[k] by {
            if k > 0 {
                assert(names.drop_first()[k - 1] == names[k]);
                assert(present.drop_first()[k - 1] == present[k]);
            }
        }
    }
}

/// A merge goes through its stages in their order. A refusal ends the request and leaves the jobs
/// as they are; a job is started at the end alone, for two different files with safe names of which
/// the first has video; and a request that is answered waits for nothing more.
pub proof fn merges_go_in_order(request: MergeView, table: TableView, event: MergeEvent)
    requires
        is_in_order(request),
        awaits(request, event),
    ensures
        ({
            let (after, jobs, action) = merge_step(request, table, event);
            &&& is_in_order(after)
            &&& jobs == (if action is Run {
                with_fresh_job(table)
            } else {
                table
            })
            &&& action is Run <==> request.stage is Measuring
            &&& after.stage is Answered <==> action is Refuse || action is Run
            &&& action matches MergeActionView::Run { video, audio, .. } ==> {
                &&& 0 <= video < request.files.len()
                &&& 0 <= audio < request.files.len()
                &&& video != audio
                &&& request.probes[video].0
                &&& is_safe_name(request.files[video])
                &&& is_safe_name(request.files[audio])
            }
            &&& after.stage is Answered ==> forall|next: MergeEvent| !#[trigger] awaits(after, next)
        }),
{
    match event {
        MergeEvent::Asked(_) => {},
        MergeEvent::Checked(present) => {
            if file_problem(request.files, present@) is None {
                lemma_no_file_problem(request.files, present@);
            }
        },
        MergeEvent::Probed(probes) => {
            lemma_look_in_order(
                MergeView { probes: probes@, looked: Seq::empty(), ..request },
            );
        },
        MergeEvent::Looked(has_audio) => {
            let before = padded(request.looked, request.stage->Looking_0 as nat);
            lemma_look_in_order(MergeView { looked: before.push(has_audio), ..request });
        },
        MergeEvent::Measured => {},
    }
}

/// Where some file has video and, with the first such taken for the video, another file has audio,
/// these are merged, the first of those others for the audio, wherever the one stands among the
/// files and wherever the other does. A request that waits for the probes then goes on to the
/// duration of the video: it is not refused, and no file is looked at again.
pub proof fn video_and_audio_are_taken_in_any_order(
    request: MergeView,
    table: TableView,
    probes: Vec<(bool, bool)>,
    second_look: Seq<bool>,
    video: int,
    audio: int,
)
    requires
        awaits(request, MergeEvent::Probed(probes)),
        0 <= video < probes@.len(),
        0 <= audio < probes@.len(),
        probes@[video].0,
        forall|k: int| 0 <= k < video ==> !(#[trigger] probes@[k]).0,
        audio != video,
        probes@[audio].1,
        forall|k: int| 0 <= k < audio && k != video ==> !(#[trigger] probes@[k]).1,
    ensures
        merge_inputs(request.files, probes@, second_look) == (Some(video), Some(audio)),
        ({
            let (after, jobs, action) = merge_step(request, table, MergeEvent::Probed(probes));
            &&& action == MergeActionView::Measure(video)
            &&& after.stage == MergeStageView::Measuring(video, audio)
            &&& after.files == request.files
            &&& jobs == table
        }),
{
    lemma_video_is_first(probes@, video, 0);
    lemma_audio_is_first(probes@, video, audio, 0);
}

proof fn lemma_video_is_first(probes: Seq<(bool, bool)>, video: int, from: int)
    requires
        0 <= from <= video < probes.len(),
        probes[video].0,
        forall|k: int| from <= k < video ==> !(#[trigger] probes[k]).0,
    ensures
        first_video(probes, from) == Some(video),
    decreases video - from,
{
    if from < video {
        lemma_video_is_first(probes, video, from + 1);
    }
}

proof fn lemma_audio_is_first(probes: Seq<(bool, bool)>, video: int, audio: int, from: int)
    requires
        0 <= from <= audio < probes.len(),
        audio != video,
        probes[audio].1,
        forall|k: int| from <= k < audio && k != video ==> !(#[trigger] probes[k]).1,
    ensures
        first_audio(probes, Some(video), from) == Some(audio),
    decreases audio - from,
{
    if from < audio {
        lemma_audio_is_first(probes, video, audio, from + 1);
    }
}

/// Whether file `k` can give the audio to the video of file `video`: a second look found that it
/// has some, and it is not under the name of the video.
pub open spec fn is_usable(names: Seq<Seq<char>>, video: Option<int>, look: bool, k: int) -> bool {
    look && (video matches Some(at) ==> names[k] != names[at])
}

/// A merge has no video exactly if no file has any; and where no file but that of the video has
/// audio, its audio is that of the first file under another name that a second look found to have
/// some, and there is none exactly if there is no such file.
pub proof fn a_merge_lacks_only_what_no_file_has(
    names: Seq<Seq<char>>,
    probes: Seq<(bool, bool)>,
    second_look: Seq<bool>,
)
    requires
        names.len() == probes.len(),
        names.len() == second_look.len(),
    ensures
        ({
            let (video, audio) = merge_inputs(names, probes, second_look);
            &&& video is None <==> forall|k: int| 0 <= k < probes.len() ==> !(#[trigger] probes[k]).0
            &&& (forall|k: int|
                0 <= k < probes.len() && video != Some(k) ==> !(#[trigger] probes[k]).1) ==> {
                &&& audio is None <==> forall|k: int|
                    0 <= k < names.len() ==> !is_usable(names, video, #[trigger] second_look[k], k)
                &&& audio matches Some(at) ==> 0 <= at < names.len() && is_usable(
                    names,
                    video,
                    second_look[at],
                    at,
                ) && forall|k: int|
                    0 <= k < at ==> !is_usable(names, video, #[trigger] second_look[k], k)
            }
        }),
{
    let video = first_video(probes, 0);
    lemma_first_video(probes, 0);
    lemma_first_audio(probes, video, 0);
    lemma_spare_is_first(names, video, second_look, 0);
}

proof fn lemma_spare_is_first(
    names: Seq<Seq<char>>,
    video: Option<int>,
    looks: Seq<bool>,
    from: int,
)
    requires
        0 <= from,
    ensures
        match spare_audio(names, video, looks, from) {
            Some(at) => {
                &&& from <= at < names.len()
                &&& is_usable(names, video, looks[at], at)
                &&& forall|k: int| from <= k < at ==> !is_usable(names, video, #[trigger] looks[k], k)
            },
            None => forall|k: int|
                from <= k < names.len() ==> !is_usable(names, video, #[trigger] looks[k], k),
        },
    decreases names.len() - from,
{
    if from < names.len() && !is_usable(names, video, looks[from], from) {
        lemma_spare_is_first(names, video, looks, from + 1);
    }
}

/// Where no file but that of the video has audio, the files are looked at again in their order, all
/// but those under the name of the video; the first look that finds audio ends this and settles the
/// merge, and when all were looked at in vain it is refused.
pub proof fn files_are_looked_at_again_in_their_order(request: MergeView, at: int)
    requires
        request.probes.len() == request.files.len(),
        forall|k: int|
            0 <= k < request.probes.len() && first_video(request.probes, 0) != Some(k)
                ==> !(#[trigger] request.probes[k]).1,
        0 <= at,
        request.looked.len() <= at <= request.files.len(),
        !request.looked.contains(true),
        first_video(request.probes, 0) is Some,
        ({
            let video = first_video(request.probes, 0)->0;
            &&& forall|k: int|
                request.looked.len() <= k < at ==> #[trigger] request.files[k]
                    == request.files[video]
            &&& at < request.files.len() ==> request.files[at] != request.files[video]
        }),
    ensures
        at < request.files.len() ==> looked_or_chosen(request).1 == MergeActionView::Look(at),
        at == request.files.len() ==> looked_or_chosen(request).1 is Refuse,
{
    let video = first_video(request.probes, 0);
    lemma_first_video(request.probes, 0);
    lemma_first_audio(request.probes, video, 0);
    lemma_other_is_first(request.files, video->0, at, request.looked.len() as int);
    let looks = padded(request.looked, request.files.len());
    assert forall|k: int| 0 <= k < request.files.len() implies !#[trigger] looks[k] by {
        if k < request.looked.len() {
            assert(request.looked.contains(request.looked[k]));
        }
    }
    lemma_spare_is_first(request.files, video, looks, 0);
}

proof fn lemma_other_is_first(names: Seq<Seq<char>>, video: int, at: int, from: int)
    requires
        0 <= from <= at <= names.len(),
        forall|k: int| from <= k < at ==> #[trigger] names[k] == names[video],
        at < names.len() ==> names[at] != names[video],
    ensures
        other_file(names, Some(video), from) == (if at < names.len() {
            Some(at)
        } else {
            None
        }),
    decreases at - from,
{
    if from < at {
        lemma_other_is_first(names, video, at, from + 1);
    }
}

/// Files are accepted exactly if each may be named and is there. Else the first that is not so is
/// told, with its name.
pub proof fn files_are_refused_for_the_first_that_fails(
    names: Seq<Seq<char>>,
    present: Seq<bool>,
    at: int,
)
    requires
        names.len() == present.len(),
    ensures
        file_problem(names, present) is None <==> forall|k: int|
            0 <= k < names.len() ==> is_safe_name(#[trigger] names[k]) && present[k],
        0 <= at < names.len() && (forall|k: int|
            0 <= k < at ==> is_safe_name(#[trigger] names[k]) && present[k]) ==> {
            &&& !is_safe_name(names[at]) ==> file_problem(names, present) == Some(
                "Invalid file name: "@ + names[at],
            )
            &&& is_safe_name(names[at]) && !present[at] ==> file_problem(names, present) == Some(
                "File not found: "@ + names[at],
            )
        },
    decreases names.len(),
{
    if file_problem(names, present) is None {
        lemma_no_file_problem(names, present);
    }
    if names.len() > 0 {
        let rest = names.drop_first();
        let rest_present = present.drop_first();
        files_are_refused_for_the_first_that_fails(rest, rest_present, at - 1);
        assert(forall|k: int| 0 <= k < rest.len() ==> rest[k] == names[k + 1]);
        assert(forall|k: int| 0 <= k < rest.len() ==> rest_present[k] == present[k + 1]);
        if forall|k: int|
            0 <= k < names.len() ==> is_safe_name(#[trigger] names[k]) && present[k] {
            assert(is_safe_name(names[0]) && present[0]);
            assert forall|k: int| 0 <= k < rest.len() implies is_safe_name(#[trigger] rest[k])
                && rest_present[k] by {
                assert(is_safe_name(names[k + 1]));
            }
        }
        if at > 0 && at < names.len() && (forall|k: int|
            0 <= k < at ==> is_safe_name(#[trigger] names[k]) && present[k]) {
            assert(is_safe_name(names[0]) && present[0]);
            assert forall|k: int| 0 <= k < at - 1 implies is_safe_name(#[trigger] rest[k])
                && rest_present[k] by {
                assert(is_safe_name(names[k + 1]));
            }
        }
    }
}

/// A selection is merged exactly if there is a query with at least two files that are not empty.
/// Each of them counts, in its order, and nothing else in the query does.
pub proof fn a_merge_needs_two_selected_files(query: Seq<char>)
    ensures
        selection_problem(None) == Some("Missing files"@),
        selected_files(None) is None,
        selected_files(Some(query)) == Some(filled_values(query_pairs(query), "files"@)),
        selection_problem(selected_files(Some(query))) is None <==> filled_values(
            query_pairs(query),
            "files"@,
        ).len() >= 2,
        filled_values(query_pairs(query), "files"@).len() < 2 ==> selection_problem(
            selected_files(Some(query)),
        ) == Some("Select at least two files (one video and one audio) to merge."@),
{
}

/// A merge whose duration was looked up is run with the two files that were chosen, under the number
/// of the job that is started for it, into the file that is named after the selection.
pub proof fn a_chosen_merge_is_run(request: MergeView, table: TableView, video: int, audio: int)
    requires
        request.stage == MergeStageView::Measuring(video, audio),
    ensures
        merge_step(request, table, MergeEvent::Measured).2 == (MergeActionView::Run {
            number: table.next,
            video,
            audio,
            output: merged_name(request.files),
            reply: merge_started_reply(table.next),
        }),
        merge_step(request, table, MergeEvent::Measured).1 == with_fresh_job(table),
        merge_step(request, table, MergeEvent::Measured).0.stage is Answered,
{
}

/// A merge overwrites its output without asking, takes its video from the first input and its audio
/// from the second, re-encodes both for phones, can be played before it is loaded, and reports its
/// progress; the output stands last, and nothing else is asked for.
pub proof fn a_merge_reencodes_its_two_inputs(
    video: Seq<char>,
    audio: Seq<char>,
    output: Seq<char>,
)
    ensures
        ({
            let args = merge_arguments(video, audio, output);
            &&& args.take(5) == seq!["-y"@, "-i"@, video, "-i"@, audio]
            &&& args.subrange(5, 9) == seq!["-map"@, "0:v:0"@, "-map"@, "1:a:0"@]
            &&& option_has_value(args, "-c:v"@, "libx264"@)
            &&& option_has_value(args, "-profile:v"@, "high"@)
            &&& option_has_value(args, "-pix_fmt"@, "yuv420p"@)
            &&& option_has_value(args, "-crf"@, "23"@)
            &&& option_has_value(args, "-preset"@, "fast"@)
            &&& option_has_value(args, "-c:a"@, "aac"@)
            &&& option_has_value(args, "-b:a"@, "128k"@)
            &&& option_has_value(args, "-movflags"@, "+faststart"@)
            &&& option_has_value(args, "-progress"@, "pipe:1"@)
            &&& args.contains("-nostats"@)
            &&& args.last() == output
            &&& args.len() == 29
        }),
{
    let args = merge_arguments(video, audio, output);
    assert(args.take(5) =~= seq!["-y"@, "-i"@, video, "-i"@, audio]);
    assert(args.subrange(5, 9) =~= seq!["-map"@, "0:v:0"@, "-map"@, "1:a:0"@]);
    assert(args[9] == "-c:v"@ && args[9int + 1] == "libx264"@);
    assert(args[11] == "-profile:v"@ && args[11int + 1] == "high"@);
    assert(args[13] == "-pix_fmt"@ && args[13int + 1] == "yuv420p"@);
    assert(args[15] == "-crf"@ && args[15int + 1] == "23"@);
    assert(args[17] == "-preset"@ && args[17int + 1] == "fast"@);
    assert(args[19] == "-c:a"@ && args[19int + 1] == "aac"@);
    assert(args[21] == "-b:a"@ && args[21int + 1] == "128k"@);
    assert(args[23] == "-movflags"@ && args[23int + 1] == "+faststart"@);
    assert(args[25] == "-progress"@ && args[25int + 1] == "pipe:1"@);
    assert(args[27] == "-nostats"@);
}

/// Progress up to 99 percent is shown as it is; less than none is shown as none, and more as 99.
pub proof fn progress_is_shown_up_to_99(percent: i64)
    ensures
        0 <= percent <= 99 ==> capped_percent(percent) as int == percent as int,
        percent <= 0 ==> capped_percent(percent) == 0,
        percent >= 99 ==> capped_percent(percent) == 99,
{
}

/// The filled lines of two lists after each other are those of the first and then those of the
/// second; a single line is one of them unless it is blank.
pub proof fn filled_lines_are_taken_one_by_one(left: Seq<Seq<char>>, right: Seq<Seq<char>>)
    ensures
        filled_lines(left + right) == filled_lines(left) + filled_lines(right),
        left.len() == 0 ==> filled_lines(left).len() == 0,
        left.len() == 1 ==> filled_lines(left) == (if trimmed(left[0]).len() > 0 {
            left
        } else {
            Seq::empty()
        }),
    decreases right.len(),
{
    if right.len() == 0 {
        assert(left + right =~= left);
        assert(filled_lines(left) + filled_lines(right) =~= filled_lines(left));
    } else {
        filled_lines_are_taken_one_by_one(left, right.drop_last());
        assert((left + right).drop_last() =~= left + right.drop_last());
        assert((left + right).last() == right.last());
        assert(filled_lines(left + right) =~= filled_lines(left) + filled_lines(right));
    }
    if left.len() == 1 {
        assert(left.drop_last() =~= Seq::empty());
        assert(filled_lines(left.drop_last()) =~= Seq::empty());
        assert(filled_lines(left) =~= (if trimmed(left[0]).len() > 0 {
            left
        } else {
            Seq::empty()
        }));
    }
}

/// What is told of a failure are the last six filled lines, or all of them where there are no more.
pub proof fn a_failure_tells_the_last_six_filled_lines(
    text: Seq<char>,
    earlier: Seq<Seq<char>>,
    last: Seq<Seq<char>>,
)
    requires
        filled_lines(lines(text)) == earlier + last,
        last.len() <= 6,
        last.len() < 6 ==> earlier.len() == 0,
    ensures
        tail_text(text) == joined(last, " | "@),
{
    let kept = filled_lines(lines(text));
    if kept.len() > 6 {
        assert(kept.skip(kept.len() - 6) =~= last);
    } else {
        assert(kept =~= last);
    }
}

/// A time is its first three fields between colons, without the white space round each; a time with
/// fewer fields is none.
pub proof fn a_time_is_three_fields(
    hours: Seq<char>,
    minutes: Seq<char>,
    seconds: Seq<char>,
    more: Seq<char>,
)
    requires
        !hours.contains(':'),
        !minutes.contains(':'),
        !seconds.contains(':'),
        hours.len() > 0 ==> !is_space(hours[0]),
        seconds.len() > 0 ==> !is_space(seconds.last()),
        more.len() > 0 ==> more[0] == ':' && !is_space(more.last()),
    ensures
        time_fields(hours + seq![':'] + minutes + seq![':'] + seconds + more) == Some(
            (trimmed(hours), trimmed(minutes), trimmed(seconds)),
        ),
        minutes.len() > 0 ==> !is_space(minutes.last()) ==> time_fields(
            hours + seq![':'] + minutes,
        ) is None,
        time_fields(seconds) is None,
{
    let tail = seconds + more;
    let rest = minutes + seq![':'] + tail;
    let time = hours + seq![':'] + minutes + seq![':'] + seconds + more;
    assert(time =~= hours + seq![':'] + rest);
    assert(!is_space(time[0]) && !is_space(time.last()));
    lemma_trimmed_fixed(time);
    splitting_cuts_at_the_first_separator(hours, rest, ':');
    splitting_cuts_at_the_first_separator(minutes, tail, ':');
    splitting_cuts_at_the_first_separator(seconds, more.drop_first(), ':');
    if more.len() > 0 {
        assert(tail =~= seconds + seq![':'] + more.drop_first());
    } else {
        assert(tail =~= seconds);
    }
    let pieces = split_char(time, ':');
    assert(pieces[0] == hours && pieces[1] == minutes && pieces[2] == seconds);
    splitting_cuts_at_the_first_separator(hours, minutes, ':');
    let short = hours + seq![':'] + minutes;
    if minutes.len() > 0 && !is_space(minutes.last()) {
        assert(!is_space(short[0]) && !is_space(short.last()));
        lemma_trimmed_fixed(short);
    }
    lemma_trimmed_keeps_out(seconds, ':');
    splitting_cuts_at_the_first_separator(trimmed(seconds), Seq::empty(), ':');
}

/// A progress line states the time behind its mark, whatever white space is round it, and no other
/// line states a time.
pub proof fn a_progress_line_states_its_time(
    before: Seq<char>,
    time: Seq<char>,
    behind: Seq<char>,
)
    requires
        forall|i: int| 0 <= i < before.len() ==> is_space(#[trigger] before[i]),
        forall|i: int| 0 <= i < behind.len() ==> is_space(#[trigger] behind[i]),
        time.len() > 0 ==> !is_space(time.last()),
    ensures
        progress_time(before + ("out_time="@ + time) + behind) == Some(time),
        !starts_with(trimmed(time), "out_time="@) ==> progress_time(time) is None,
{
    reveal_strlit("out_time=");
    let text = "out_time="@ + time;
    assert(text[0] == 'o');
    assert(text.last() == (if time.len() > 0 {
        time.last()
    } else {
        '='
    }));
    trimming_takes_off_white_space(before, text, behind);
    assert(text.subrange(0, 9) =~= "out_time="@);
    assert(text.skip(9) =~= time);
}

/// A merge that starts is answered with the id under which its state is then reported.
pub proof fn a_started_merge_can_be_followed(table: TableView)
    ensures
        merge_started_reply(table.next).status == "200 OK"@,
        merge_started_reply(table.next).content_type == "application/json"@,
        merge_started_reply(table.next).body == json_text(
            map![
                "status"@ => JsonView::Text("started"@),
                "jobId"@ => JsonView::Text(job_id_text(table.next)),
            ],
        ),
        status_reply_for(with_fresh_job(table), Some(job_id_text(table.next))).status == "200 OK"@,
{
    started_job_can_be_polled(table);
}

/// A merge is refused for its selection and for its files before anything is probed; what passes
/// both is checked and then probed, with the files that were selected and no others.
#[verifier::spinoff_prover]
pub proof fn a_merge_is_checked_before_it_is_probed(
    request: MergeView,
    table: TableView,
    query: Option<String>,
    present: Vec<bool>,
)
    ensures
        ({
            let (after, jobs, action) = merge_step(request, table, MergeEvent::Asked(query));
            let files = match query {
                Some(text) => filled_values(query_pairs(text@), "files"@),
                None => Seq::empty(),
            };
            &&& jobs == table
            &&& files.len() >= 2 ==> action is Check && after.stage is Checking && after.files
                == files
            &&& files.len() < 2 ==> action is Refuse && after.stage is Answered
        }),
        ({
            let (after, jobs, action) = merge_step(request, table, MergeEvent::Checked(present));
            let good = forall|k: int|
                0 <= k < request.files.len() ==> is_safe_name(#[trigger] request.files[k])
                    && present@[k];
            &&& jobs == table
            &&& after.files == request.files
            &&& present@.len() == request.files.len() && good ==> action is Probe && after.stage
                is Probing
            &&& present@.len() == request.files.len() && !good ==> action is Refuse && after.stage
                is Answered
        }),
{
    lemma_checked(request, table, present);
    if present@.len() == request.files.len() {
        files_are_refused_for_the_first_that_fails(request.files, present@, 0);
        let good = forall|k: int|
            0 <= k < request.files.len() ==> is_safe_name(#[trigger] request.files[k])
                && present@[k];
        assert(good == (file_problem(request.files, present@) is None));
    }
}

/// A merge is run only by a request that was answered so, and only then is a job entered; a refusal
/// is an error report, ends the request, and enters nothing.
pub proof fn a_refused_merge_enters_no_job(request: MergeView, table: TableView, event: MergeEvent)
    ensures
        ({
            let (after, jobs, action) = merge_step(request, table, event);
            &&& action matches MergeActionView::Refuse(reply) ==> {
                &&& jobs == table
                &&& after.stage is Answered
                &&& reply.status == "200 OK"@
                &&& exists|message: Seq<char>| #[trigger]
                    json_reply("200 OK"@, error_fields(message)) == reply
            }
            &&& action is Run <==> event is Measured
            &&& !(action is Run) ==> jobs == table
        }),
{
    let (after, jobs, action) = merge_step(request, table, event);
    if let MergeActionView::Refuse(reply) = action {
        let message = match event {
            MergeEvent::Asked(query) => selection_problem(selected_files(optional(query)))->0,
            MergeEvent::Checked(present) => file_problem(request.files, present@)->0,
            _ =>
                "Select one file that has video and one that has audio (e.g. an itag137 .mp4 video and an itag251 .webm audio)."@,
        };
        assert(json_reply("200 OK"@, error_fields(message)) == reply);
    }
}

/// Files of which none has video are not merged, with or without audio; the user is told what is
/// missing once every file was looked at.
pub proof fn files_without_video_are_not_merged(
    request: MergeView,
    table: TableView,
    probes: Vec<(bool, bool)>,
)
    requires
        awaits(request, MergeEvent::Probed(probes)),
        forall|k: int| 0 <= k < probes@.len() ==> !(#[trigger] probes@[k]).0,
    ensures
        ({
            let action = merge_step(request, table, MergeEvent::Probed(probes)).2;
            &&& !(action is Measure)
            &&& (exists|k: int| 0 <= k < probes@.len() && (#[trigger] probes@[k]).1) ==> action
                == MergeActionView::Refuse(
                json_reply(
                    "200 OK"@,
                    error_fields(
                        "Select one file that has video and one that has audio (e.g. an itag137 .mp4 video and an itag251 .webm audio)."@,
                    ),
                ),
            )
        }),
{
    lemma_first_video(probes@, 0);
    lemma_first_audio(probes@, None, 0);
    assert(first_video(probes@, 0) is None);
}

/// A look that finds audio ends the search: the file that was looked at gives the audio to the
/// video.
pub proof fn a_look_that_finds_audio_settles_the_merge(
    request: MergeView,
    table: TableView,
    video: int,
    at: int,
)
    requires
        is_in_order(request),
        request.stage == MergeStageView::Looking(at),
        0 <= video < request.probes.len(),
        request.probes[video].0,
        forall|k: int| 0 <= k < video ==> !(#[trigger] request.probes[k]).0,
        forall|k: int|
            0 <= k < request.probes.len() && k != video ==> !(#[trigger] request.probes[k]).1,
        !request.looked.contains(true),
        request.files[at] != request.files[video],
    ensures
        ({
            let (after, jobs, action) = merge_step(request, table, MergeEvent::Looked(true));
            &&& action == MergeActionView::Measure(video)
            &&& after.stage == MergeStageView::Measuring(video, at)
            &&& jobs == table
        }),
{
    lemma_video_is_first(request.probes, video, 0);
    lemma_first_audio(request.probes, Some(video), 0);
    let before = padded(request.looked, at as nat);
    let looked = before.push(true);
    assert(looked[at]);
    assert(looked.contains(true));
    let looks = padded(looked, request.files.len());
    assert forall|k: int| 0 <= k < at implies !#[trigger] looks[k] by {
        if k < request.looked.len() {
            assert(request.looked.contains(request.looked[k]));
        }
    }
    assert(looks[at]);
    lemma_spare_is_first(request.files, Some(video), looks, 0);
    let found = spare_audio(request.files, Some(video), looks, 0);
    assert(is_usable(request.files, Some(video), looks[at], at));
}

/// A merge that fails tells what went wrong: that the converter could not be run, and which and
/// why; what the converter wrote last; or what was missing.
pub proof fn a_failed_merge_tells_why(
    job: JobView,
    name: Seq<char>,
    converter: String,
    error: String,
    stderr: Vec<u8>,
)
    ensures
        merge_ended(job, name, MergeEnd::NotRun(converter, error)).error == Some(
            "Could not run ffmpeg ("@ + converter@ + "): "@ + error@
                + ". Install FFmpeg and add it to PATH, or place ffmpeg.exe next to downloader.exe."@,
        ),
        merge_ended(job, name, MergeEnd::NoOutput).error == Some("ffmpeg: missing stdout"@),
        merge_ended(job, name, MergeEnd::Failed(stderr)).error == Some(
            "ffmpeg failed: "@ + tail_text(decoded(stderr@)),
        ),
        merge_ended(job, name, MergeEnd::Lost(error)).error == Some(
            "ffmpeg wait failed: "@ + error@,
        ),
{
}

/// A look that finds nothing leads to the next file under another name than that of the video, and
/// to a refusal where there is none.
pub proof fn a_look_that_finds_nothing_goes_on(
    request: MergeView,
    table: TableView,
    video: int,
    at: int,
    next: int,
)
    requires
        is_in_order(request),
        request.stage == MergeStageView::Looking(at),
        0 <= video < request.probes.len(),
        request.probes[video].0,
        forall|k: int| 0 <= k < video ==> !(#[trigger] request.probes[k]).0,
        forall|k: int|
            0 <= k < request.probes.len() && k != video ==> !(#[trigger] request.probes[k]).1,
        !request.looked.contains(true),
        at < next <= request.files.len(),
        forall|k: int| at < k < next ==> #[trigger] request.files[k] == request.files[video],
        next < request.files.len() ==> request.files[next] != request.files[video],
    ensures
        ({
            let (after, jobs, action) = merge_step(request, table, MergeEvent::Looked(false));
            &&& jobs == table
            &&& next < request.files.len() ==> action == MergeActionView::Look(next) && after.stage
                == MergeStageView::Looking(next)
            &&& next == request.files.len() ==> action is Refuse
        }),
{
    lemma_video_is_first(request.probes, video, 0);
    let before = padded(request.looked, at as nat);
    let looked = before.push(false);
    assert(!looked.contains(true)) by {
        if looked.contains(true) {
            let k = looked.index_of(true);
            if k < request.looked.len() {
                assert(request.looked[k]);
            }
        }
    }
    let now = MergeView { looked, ..request };
    assert(looked.len() == at + 1);
    files_are_looked_at_again_in_their_order(now, next);
    lemma_first_audio(request.probes, Some(video), 0);
}

/// A refusal tells its reason: that no files are named, or too few, or which of them cannot be
/// named or found.
#[verifier::spinoff_prover]
pub proof fn a_refusal_tells_its_reason(
    request: MergeView,
    table: TableView,
    query: String,
    present: Vec<bool>,
    at: int,
)
    ensures
        merge_step(request, table, MergeEvent::Asked(None)).2 == MergeActionView::Refuse(
            json_reply("200 OK"@, error_fields("Missing files"@)),
        ),
        filled_values(query_pairs(query@), "files"@).len() < 2 ==> merge_step(
            request,
            table,
            MergeEvent::Asked(Some(query)),
        ).2 == MergeActionView::Refuse(
            json_reply(
                "200 OK"@,
                error_fields("Select at least two files (one video and one audio) to merge."@),
            ),
        ),
        present@.len() == request.files.len() && 0 <= at < request.files.len() && (forall|k: int|
            0 <= k < at ==> is_safe_name(#[trigger] request.files[k]) && present@[k]) ==> {
            let action = merge_step(request, table, MergeEvent::Checked(present)).2;
            &&& !is_safe_name(request.files[at]) ==> action == MergeActionView::Refuse(
                json_reply("200 OK"@, error_fields("Invalid file name: "@ + request.files[at])),
            )
            &&& is_safe_name(request.files[at]) && !present@[at] ==> action
                == MergeActionView::Refuse(
                json_reply("200 OK"@, error_fields("File not found: "@ + request.files[at])),
            )
        },
{
    if present@.len() == request.files.len() {
        files_are_refused_for_the_first_that_fails(request.files, present@, at);
        lemma_checked(request, table, present);
    }
}

/// What follows on a check of the files.
proof fn lemma_checked(request: MergeView, table: TableView, present: Vec<bool>)
    ensures
        ({
            let (after, jobs, action) = merge_step(request, table, MergeEvent::Checked(present));
            let problem = file_problem(request.files, present@);
            &&& jobs == table
            &&& after.files == request.files
            &&& problem is None ==> action == MergeActionView::Probe && after.stage is Probing
            &&& problem matches Some(message) ==> {
                &&& action == MergeActionView::Refuse(json_reply("200 OK"@, error_fields(message)))
                &&& after.stage is Answered
            }
        }),
{
}

} // verus!
