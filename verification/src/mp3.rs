//! Converting selected files to MP3, one after the other.

use crate::files::{is_mp3_name, is_safe_filename, is_safe_name, mp3_file_name, mp3_name};
use crate::form::{filled_values, query_pairs};
use crate::http::{error_fields, json_error, json_reply, Response, ResponseView};
use crate::json::{json_text, new_object, no_fields, object_text, set_field, text_list};
use crate::json::{JsonField, JsonView};
use crate::merge::{ffmpeg_stderr_tail, read_selection, selected_files, tail_text};
use crate::text::{ends_with, join_texts, joined, optional, push_text, two_texts, views};
use crate::unicode::{decoded, lowered};
use crate::ytdlp::option_has_value;
use vstd::prelude::*;

verus! {

/// Why a selection of files cannot be converted, if it cannot.
pub open spec fn conversion_problem(files: Option<Seq<Seq<char>>>) -> Option<Seq<char>> {
    match files {
        None => Some("Missing files"@),
        Some(list) => if list.len() == 0 {
            Some("Select at least one file to convert to MP3."@)
        } else {
            None
        },
    }
}

/// The files that a request wants converted, or the answer that refuses it.
pub fn mp3_selection(query: &Option<String>) -> (selection: Result<Vec<String>, Response>)
    ensures
        match selection {
            Ok(files) => conversion_problem(selected_files(optional(*query))) is None && Some(
                views(files@),
            ) == selected_files(optional(*query)),
            Err(reply) => {
                &&& conversion_problem(selected_files(optional(*query))) is Some
                &&& reply@ == json_reply(
                    "200 OK"@,
                    error_fields(conversion_problem(selected_files(optional(*query)))->0),
                )
            },
        },
{
    match read_selection(query) {
        Some(files) => {
            assert(views(files@).len() == files@.len());
            if files.len() == 0 {
                Err(json_error("Select at least one file to convert to MP3."))
            } else {
                Ok(files)
            }
        },
        None => Err(json_error("Missing files")),
    }
}

/// The arguments that make the converter write the audio of a file as MP3.
pub open spec fn mp3_arguments(input: Seq<char>, output: Seq<char>) -> Seq<Seq<char>> {
    seq!["-y"@, "-i"@, input, "-vn"@, "-c:a"@, "libmp3lame"@, "-b:a"@, "192k"@, output]
}

/// The arguments that make the converter write the audio of a file as MP3.
pub fn mp3_args(input: &str, output: &str) -> (args: Vec<String>)
    ensures
        views(args@) == mp3_arguments(input@, output@),
{
    let mut args: Vec<String> = Vec::new();
    push_text(&mut args, "-y");
    push_text(&mut args, "-i");
    push_text(&mut args, input);
    push_text(&mut args, "-vn");
    push_text(&mut args, "-c:a");
    push_text(&mut args, "libmp3lame");
    push_text(&mut args, "-b:a");
    push_text(&mut args, "192k");
    push_text(&mut args, output);
    assert(views(args@) =~= mp3_arguments(input@, output@));
    args
}

/// What has become known of a file that is to be converted.
pub enum Mp3Event {
    /// It is its turn.
    Selected,
    /// Whether it is there.
    Looked(bool),
    /// Whether it has audio.
    Probed(bool),
    /// The converter has succeeded.
    Converted,
    /// The converter has failed, and wrote this as errors.
    Failed(Vec<u8>),
    /// The converter, named first, could not be run.
    NotRun(String, String),
}

/// What to do next for a file that is to be converted.
pub enum Mp3Action {
    /// Look whether it is there.
    Look,
    /// Find out whether it has audio.
    Probe,
    /// Convert it to a file of this name.
    Convert(String),
    /// Go on to the next file.
    Next,
}

/// What to do next for a file that is to be converted.
pub enum Mp3ActionView {
    Look,
    Probe,
    Convert(Seq<char>),
    Next,
}

impl View for Mp3Action {
    type V = Mp3ActionView;

    open spec fn view(&self) -> Mp3ActionView {
        match *self {
            Mp3Action::Look => Mp3ActionView::Look,
            Mp3Action::Probe => Mp3ActionView::Probe,
            Mp3Action::Convert(name) => Mp3ActionView::Convert(name@),
            Mp3Action::Next => Mp3ActionView::Next,
        }
    }
}

/// The files that were made so far, and what was skipped.
pub struct Mp3Batch {
    pub outputs: Vec<String>,
    pub errors: Vec<String>,
}

/// The files that were made so far, and what was skipped.
#[verifier::ext_equal]
pub struct BatchView {
    pub outputs: Seq<Seq<char>>,
    pub errors: Seq<Seq<char>>,
}

impl View for Mp3Batch {
    type V = BatchView;

    open spec fn view(&self) -> BatchView {
        BatchView { outputs: views(self.outputs@), errors: views(self.errors@) }
    }
}

/// What comes of one file as something becomes known of it.
pub enum Verdict {
    /// Nothing yet: this is done first.
    Pending(Mp3ActionView),
    /// This file was made of it.
    Made(Seq<char>),
    /// It is skipped, for this reason.
    Skipped(Seq<char>),
}

/// The last four characters of a name are a dot, an `m`, a `p` and a `3`.
pub open spec fn has_mp3_ending(name: Seq<char>) -> bool {
    &&& name.len() >= 4
    &&& name[name.len() - 4] == '.'
    &&& name[name.len() - 3] == 'm'
    &&& name[name.len() - 2] == 'p'
    &&& name[name.len() - 1] == '3'
}

/// What comes of file `name` with `event`.
pub open spec fn verdict(name: Seq<char>, event: Mp3Event) -> Verdict {
    match event {
        Mp3Event::Selected => if !is_safe_name(name) {
            Verdict::Skipped("invalid name"@)
        } else if ends_with(lowered(name), ".mp3"@) {
            Verdict::Skipped("already MP3"@)
        } else {
            Verdict::Pending(Mp3ActionView::Look)
        },
        Mp3Event::Looked(present) => if present {
            Verdict::Pending(Mp3ActionView::Probe)
        } else {
            Verdict::Skipped("not found"@)
        },
        Mp3Event::Probed(has_audio) => if has_audio {
            Verdict::Pending(Mp3ActionView::Convert(mp3_name(name)))
        } else {
            Verdict::Skipped("no audio stream"@)
        },
        Mp3Event::Converted => Verdict::Made(mp3_name(name)),
        Mp3Event::Failed(stderr) => Verdict::Skipped(tail_text(decoded(stderr@))),
        Mp3Event::NotRun(converter, error) => Verdict::Skipped(
            "could not run ffmpeg ("@ + converter@ + "): "@ + error@,
        ),
    }
}

/// The batch after a verdict on file `name`, and what to do next.
pub open spec fn judged(batch: BatchView, name: Seq<char>, verdict: Verdict) -> (
    BatchView,
    Mp3ActionView,
) {
    match verdict {
        Verdict::Pending(action) => (batch, action),
        Verdict::Made(output) => (
            BatchView { outputs: batch.outputs.push(output), errors: batch.errors },
            Mp3ActionView::Next,
        ),
        Verdict::Skipped(reason) => (
            BatchView { outputs: batch.outputs, errors: batch.errors.push(name + ": "@ + reason) },
            Mp3ActionView::Next,
        ),
    }
}

/// What is answered once every file had its turn.
pub open spec fn batch_reply(batch: BatchView) -> ResponseView {
    if batch.outputs.len() == 0 {
        json_reply(
            "200 OK"@,
            error_fields("No files converted. "@ + joined(batch.errors, " | "@)),
        )
    } else {
        let made = "Converted to MP3: "@ + joined(batch.outputs, ", "@);
        let message = if batch.errors.len() == 0 {
            made
        } else {
            made + " — skipped: "@ + joined(batch.errors, " | "@)
        };
        json_reply(
            "200 OK"@,
            no_fields().insert("status"@, JsonView::Text("ok"@)).insert(
                "outputs"@,
                text_list(batch.outputs),
            ).insert("message"@, JsonView::Text(message)),
        )
    }
}

impl Mp3Batch {
    /// A batch of which nothing was done yet.
    pub fn new() -> (batch: Mp3Batch)
        ensures
            batch@ == (BatchView { outputs: Seq::empty(), errors: Seq::empty() }),
    {
        let batch = Mp3Batch { outputs: Vec::new(), errors: Vec::new() };
        assert(batch@ =~= BatchView { outputs: Seq::empty(), errors: Seq::empty() });
        batch
    }

    /// Notes why a file is skipped.
    fn skip(&mut self, name: &str, reason: &str) -> (action: Mp3Action)
        ensures
            (final(self)@, action@) == judged(old(self)@, name@, Verdict::Skipped(reason@)),
    {
        let mut error = two_texts(name, ": ");
        error.append(reason);
        push_text(&mut self.errors, error.as_str());
        Mp3Action::Next
    }

    /// Takes in what has become known of file `name`, and says what to do next.
    pub fn step(&mut self, name: &str, event: Mp3Event) -> (action: Mp3Action)
        ensures
            (final(self)@, action@) == judged(old(self)@, name@, verdict(name@, event)),
            event is Selected && is_safe_name(name@) && !has_mp3_ending(lowered(name@)) ==> {
                &&& final(self)@ == old(self)@
                &&& action@ is Look
            },
    {
        proof {
            if is_safe_name(name@) {
                only_mp3_files_are_skipped_as_such(self@, name@);
            }
        }
        match event {
            Mp3Event::Selected => if !is_safe_filename(name) {
                self.skip(name, "invalid name")
            } else if is_mp3_name(name) {
                self.skip(name, "already MP3")
            } else {
                Mp3Action::Look
            },
            Mp3Event::Looked(present) => if present {
                Mp3Action::Probe
            } else {
                self.skip(name, "not found")
            },
            Mp3Event::Probed(has_audio) => if has_audio {
                Mp3Action::Convert(mp3_file_name(name))
            } else {
                self.skip(name, "no audio stream")
            },
            Mp3Event::Converted => {
                let output = mp3_file_name(name);
                push_text(&mut self.outputs, output.as_str());
                Mp3Action::Next
            },
            Mp3Event::Failed(stderr) => {
                let tail = ffmpeg_stderr_tail(stderr.as_slice());
                self.skip(name, tail.as_str())
            },
            Mp3Event::NotRun(converter, error) => {
                let mut reason = two_texts("could not run ffmpeg (", converter.as_str());
                reason.append("): ");
                reason.append(error.as_str());
                self.skip(name, reason.as_str())
            },
        }
    }

    /// The answer once every file had its turn.
    pub fn finish(self) -> (reply: Response)
        ensures
            reply@ == batch_reply(self@),
    {
        assert(self@.outputs.len() == self.outputs@.len());
        assert(self@.errors.len() == self.errors@.len());
        let skipped = join_texts(&self.errors, " | ");
        if self.outputs.len() == 0 {
            let message = two_texts("No files converted. ", skipped.as_str());
            return json_error(message.as_str());
        }
        let made = join_texts(&self.outputs, ", ");
        let mut message = two_texts("Converted to MP3: ", made.as_str());
        if self.errors.len() > 0 {
            message.append(" — skipped: ");
            message.append(skipped.as_str());
        }
        let mut object = new_object();
        set_field(&mut object, "status", JsonField::Text("ok".to_owned()));
        set_field(&mut object, "outputs", JsonField::Texts(self.outputs));
        set_field(&mut object, "message", JsonField::Text(message));
        Response {
            status: "200 OK".to_owned(),
            body: object_text(object),
            content_type: "application/json".to_owned(),
        }
    }
}

/// A file is done with exactly when one more file was made or one more was skipped; until then
/// the batch stays as it is. What was noted before is never lost.
pub proof fn each_file_is_accounted_for_once(batch: BatchView, name: Seq<char>, event: Mp3Event)
    ensures
        ({
            let (after, action) = judged(batch, name, verdict(name, event));
            &&& batch.outputs.is_prefix_of(after.outputs)
            &&& batch.errors.is_prefix_of(after.errors)
            &&& after.outputs.len() + after.errors.len() == batch.outputs.len()
                + batch.errors.len() + (if action is Next {
                1int
            } else {
                0int
            })
        }),
{
}

/// A file with a name that may lead out of the folder is never looked at, probed or converted.
pub proof fn unsafe_names_are_skipped(batch: BatchView, name: Seq<char>)
    requires
        !is_safe_name(name),
    ensures
        judged(batch, name, verdict(name, Mp3Event::Selected)) == (
            BatchView { outputs: batch.outputs, errors: batch.errors.push(name + ": invalid name"@) },
            Mp3ActionView::Next,
        ),
{
    reveal_strlit(": ");
    reveal_strlit("invalid name");
    reveal_strlit(": invalid name");
    assert(name + ": "@ + "invalid name"@ =~= name + ": invalid name"@);
}

/// A selected file with a name that may be used is skipped as MP3 exactly if the last four
/// characters of its name, in lower case, are a dot and `mp3`. Any other leaves the batch as it is
/// and is looked for.
pub proof fn only_mp3_files_are_skipped_as_such(batch: BatchView, name: Seq<char>)
    requires
        is_safe_name(name),
    ensures
        ({
            let is_mp3 = has_mp3_ending(lowered(name));
            let (after, action) = judged(batch, name, verdict(name, Mp3Event::Selected));
            &&& !is_mp3 ==> after == batch && action == Mp3ActionView::Look
            &&& is_mp3 ==> {
                &&& after.outputs == batch.outputs
                &&& after.errors == batch.errors.push(name + ": already MP3"@)
                &&& action == Mp3ActionView::Next
            }
        }),
{
    reveal_strlit(".mp3");
    reveal_strlit(": ");
    reveal_strlit("already MP3");
    reveal_strlit(": already MP3");
    assert(name + ": "@ + "already MP3"@ =~= name + ": already MP3"@);
    let lower = lowered(name);
    let end = lower.len() as int;
    if end >= 4 {
        let tail = lower.subrange(end - 4, end);
        assert(tail[0] == lower[end - 4] && tail[1] == lower[end - 3] && tail[2] == lower[end - 2]
            && tail[3] == lower[end - 1]);
        if ends_with(lower, ".mp3"@) {
            assert(tail == ".mp3"@);
        }
        if tail[0] == '.' && tail[1] == 'm' && tail[2] == 'p' && tail[3] == '3' {
            assert(tail =~= ".mp3"@);
        }
    }
}

/// A file that may be named, is no MP3, is there and has audio goes all the way: it is looked for,
/// probed and converted, in this order, into the MP3 that is named after it, which is then among
/// the outputs, with nothing skipped.
pub proof fn a_file_with_audio_is_converted(batch: BatchView, name: Seq<char>)
    requires
        is_safe_name(name),
        !ends_with(lowered(name), ".mp3"@),
    ensures
        judged(batch, name, verdict(name, Mp3Event::Selected)) == (batch, Mp3ActionView::Look),
        judged(batch, name, verdict(name, Mp3Event::Looked(true))) == (batch, Mp3ActionView::Probe),
        judged(batch, name, verdict(name, Mp3Event::Probed(true))) == (
            batch,
            Mp3ActionView::Convert(mp3_name(name)),
        ),
        judged(batch, name, verdict(name, Mp3Event::Converted)) == (
            BatchView { outputs: batch.outputs.push(mp3_name(name)), errors: batch.errors },
            Mp3ActionView::Next,
        ),
{
}

/// A file that is not there, has no audio or cannot be converted is skipped: nothing is made of it,
/// and one error is noted, with its name and, behind a colon, what went wrong with it.
pub proof fn a_file_that_fails_is_told(
    batch: BatchView,
    name: Seq<char>,
    stderr: Vec<u8>,
    converter: String,
    error: String,
)
    ensures
        ({
            let skipped = |reason: Seq<char>|
                (
                    BatchView {
                        outputs: batch.outputs,
                        errors: batch.errors.push(name + ": "@ + reason),
                    },
                    Mp3ActionView::Next,
                );
            &&& judged(batch, name, verdict(name, Mp3Event::Looked(false))) == skipped("not found"@)
            &&& judged(batch, name, verdict(name, Mp3Event::Probed(false))) == skipped(
                "no audio stream"@,
            )
            &&& judged(batch, name, verdict(name, Mp3Event::Failed(stderr))) == skipped(
                tail_text(decoded(stderr@)),
            )
            &&& judged(batch, name, verdict(name, Mp3Event::NotRun(converter, error))) == skipped(
                "could not run ffmpeg ("@ + converter@ + "): "@ + error@,
            )
        }),
{
}

/// The converter overwrites without asking, reads the one file, leaves its video out, encodes its
/// audio as MP3 with 192 kbit/s and writes the output, which stands last.
pub proof fn an_mp3_is_made_of_the_audio_alone(input: Seq<char>, output: Seq<char>)
    ensures
        ({
            let args = mp3_arguments(input, output);
            &&& args.len() == 9
            &&& args[0] == "-y"@
            &&& args[1] == "-i"@
            &&& args[2] == input
            &&& args[3] == "-vn"@
            &&& option_has_value(args, "-c:a"@, "libmp3lame"@)
            &&& option_has_value(args, "-b:a"@, "192k"@)
            &&& args.last() == output
        }),
{
    let args = mp3_arguments(input, output);
    assert(args[4] == "-c:a"@ && args[4int + 1] == "libmp3lame"@);
    assert(args[6] == "-b:a"@ && args[6int + 1] == "192k"@);
}

/// A conversion needs a query with at least one file that is not empty; it then takes every such
/// file, in its order.
pub proof fn a_conversion_needs_one_selected_file(query: Seq<char>)
    ensures
        conversion_problem(selected_files(None)) == Some("Missing files"@),
        ({
            let files = filled_values(query_pairs(query), "files"@);
            &&& selected_files(Some(query)) == Some(files)
            &&& conversion_problem(selected_files(Some(query))) == (if files.len() == 0 {
                Some("Select at least one file to convert to MP3."@)
            } else {
                None
            })
        }),
{
}

/// The answer to a batch is an error exactly if nothing was made; else it lists every output as it
/// stands in the batch, and tells what was skipped only where something was.
pub proof fn a_batch_is_answered_with_its_outputs(batch: BatchView, listed: Seq<JsonView>)
    requires
        listed.len() == batch.outputs.len(),
        forall|k: int|
            0 <= k < listed.len() ==> #[trigger] listed[k] == JsonView::Text(batch.outputs[k]),
    ensures
        ({
            let reply = batch_reply(batch);
            let made = "Converted to MP3: "@ + joined(batch.outputs, ", "@);
            &&& reply.status == "200 OK"@
            &&& reply.content_type == "application/json"@
            &&& batch.outputs.len() == 0 ==> reply.body == json_text(
                map!["status"@ => JsonView::Text("error"@),
                     "message"@ => JsonView::Text("No files converted. "@ + joined(batch.errors, " | "@))],
            )
            &&& batch.outputs.len() > 0 && batch.errors.len() == 0 ==> reply.body == json_text(
                map!["status"@ => JsonView::Text("ok"@),
                     "outputs"@ => JsonView::List(listed),
                     "message"@ => JsonView::Text(made)],
            )
            &&& batch.outputs.len() > 0 && batch.errors.len() > 0 ==> reply.body == json_text(
                map!["status"@ => JsonView::Text("ok"@),
                     "outputs"@ => JsonView::List(listed),
                     "message"@ => JsonView::Text(made + " — skipped: "@ + joined(batch.errors, " | "@))],
            )
        }),
{
    assert(listed =~= batch.outputs.map_values(|text: Seq<char>| JsonView::Text(text)));
}



} // verus!
