//! Download requests: what a page asks for, and what becomes of the job.

use crate::form::{find_last_filled_value, find_last_value, last_filled_value, last_value};
use crate::form::{pair_views, parse_query, query_pairs, the_last_value_stands_last};
use crate::http::{bad_request, error_fields, json_reply, Response, ResponseView};
use crate::jobs::{completed_job, failed_job, job_fields, job_id, job_id_text, job_number_of_its_id};
use crate::jobs::{started_job_can_be_polled, status_reply_for, with_fresh_job, with_job};
use crate::jobs::{DownloadJobStatus, JobTable, JobView, TableView};
use crate::json::{json_text, new_object, no_fields, object_text, set_field, JsonField, JsonView};
use crate::text::{ends_with, optional, starts_with};
use vstd::prelude::*;

verus! {

/// One format of one video, as a page asks for it.
pub struct DownloadRequest {
    pub video: String,
    pub itag: String,
    pub container: String,
    pub video_id: String,
}

/// One format of one video, as a page asks for it.
#[verifier::ext_equal]
pub struct RequestView {
    pub video: Seq<char>,
    pub itag: Seq<char>,
    pub container: Seq<char>,
    pub video_id: Seq<char>,
}

impl View for DownloadRequest {
    type V = RequestView;

    open spec fn view(&self) -> RequestView {
        RequestView {
            video: self.video@,
            itag: self.itag@,
            container: self.container@,
            video_id: self.video_id@,
        }
    }
}

/// What the pairs of a query ask for, or what they lack. Of several values under one name the
/// last counts; an empty id of a format counts as none.
pub open spec fn requested(pairs: Seq<(Seq<char>, Seq<char>)>) -> Result<RequestView, Seq<char>> {
    let video = last_value(pairs, "video"@);
    let itag = last_filled_value(pairs, "itag"@);
    let container = last_value(pairs, "container"@);
    let video_id = last_value(pairs, "video_id"@);
    if video is None {
        Err("Missing video"@)
    } else if itag is None {
        Err("Missing itag"@)
    } else if container is None || video_id is None {
        Err("Missing container/video_id"@)
    } else {
        Ok(
            RequestView {
                video: video->0,
                itag: itag->0,
                container: container->0,
                video_id: video_id->0,
            },
        )
    }
}

/// What a query asks for, or what it lacks.
pub open spec fn requested_by(query: Option<Seq<char>>) -> Result<RequestView, Seq<char>> {
    match query {
        Some(text) => requested(query_pairs(text)),
        None => Err("Missing query"@),
    }
}

/// What the pairs of a query ask for, or what they lack.
pub fn read_request(pairs: &Vec<(String, String)>) -> (request: Result<
    DownloadRequest,
    &'static str,
>)
    ensures
        requested(pair_views(pairs@)) == (match request {
            Ok(inner) => Ok(inner@),
            Err(message) => Err(message@),
        }),
{
    let video = match find_last_value(pairs, "video") {
        Some(value) => value,
        None => {
            return Err("Missing video");
        },
    };
    let itag = match find_last_filled_value(pairs, "itag") {
        Some(value) => value,
        None => {
            return Err("Missing itag");
        },
    };
    let container = match find_last_value(pairs, "container") {
        Some(value) => value,
        None => {
            return Err("Missing container/video_id");
        },
    };
    let video_id = match find_last_value(pairs, "video_id") {
        Some(value) => value,
        None => {
            return Err("Missing container/video_id");
        },
    };
    Ok(DownloadRequest { video, itag, container, video_id })
}

/// The answer that says under which id a download runs.
pub open spec fn started_reply(number: u64, itag: Seq<char>) -> ResponseView {
    json_reply(
        "200 OK"@,
        no_fields().insert("status"@, JsonView::Text("started"@)).insert(
            "jobId"@,
            JsonView::Text(job_id_text(number)),
        ).insert("itag"@, JsonView::Text(itag)),
    )
}

/// A download that has been entered as a job.
pub struct StartedDownload {
    pub number: u64,
    pub request: DownloadRequest,
}

/// Answers a request for a download. A complete request is entered as a job; one that lacks
/// something is refused, and nothing is entered.
pub fn handle_download_request(table: &mut JobTable, query: &Option<String>) -> (outcome: (
    Response,
    Option<StartedDownload>,
))
    ensures
        match requested_by(optional(*query)) {
            Ok(request) => {
                &&& outcome.0@ == started_reply(old(table)@.next, request.itag)
                &&& outcome.1 is Some
                &&& outcome.1->0.number == old(table)@.next
                &&& outcome.1->0.request@ == request
                &&& final(table)@ == with_fresh_job(old(table)@)
            },
            Err(message) => {
                &&& outcome.0@ == json_reply("400 Bad Request"@, error_fields(message))
                &&& outcome.1 is None
                &&& final(table)@ == old(table)@
            },
        },
{
    let text = match query {
        Some(text) => text,
        None => {
            return (bad_request("Missing query"), None);
        },
    };
    let pairs = parse_query(text.as_str());
    match read_request(&pairs) {
        Ok(request) => {
            let number = table.start();
            let mut object = new_object();
            set_field(&mut object, "status", JsonField::Text("started".to_owned()));
            set_field(&mut object, "jobId", JsonField::Text(job_id(number)));
            set_field(&mut object, "itag", JsonField::Text(request.itag.clone()));
            let reply = Response {
                status: "200 OK".to_owned(),
                body: object_text(object),
                content_type: "application/json".to_owned(),
            };
            (reply, Some(StartedDownload { number, request }))
        },
        Err(message) => (bad_request(message), None),
    }
}

/// What is said of a download that is done.
pub open spec fn saved_message(itag: Seq<char>, path: Seq<char>) -> Seq<char> {
    "Saved itag "@ + itag + " to "@ + path
}

/// The job of a download once it has ended: with the path of the file that it left, or with its
/// error.
pub open spec fn download_ended_job(
    job: JobView,
    itag: Seq<char>,
    result: Result<String, String>,
) -> JobView {
    match result {
        Ok(path) => completed_job(job, path@, saved_message(itag, path@)),
        Err(error) => failed_job(job, error@),
    }
}

/// Notes the end of a download: the path of the file that it left, or its error.
pub fn finish_download(
    table: &mut JobTable,
    number: u64,
    itag: &str,
    result: Result<String, String>,
)
    ensures
        final(table)@ == with_job(
            old(table)@,
            number,
            download_ended_job(old(table)@.jobs[number], itag@, result),
        ),
        final(table)@ == with_job(
            old(table)@,
            number,
            match result {
                Ok(path) => completed_job(
                    old(table)@.jobs[number],
                    path@,
                    saved_message(itag@, path@),
                ),
                Err(error) => failed_job(old(table)@.jobs[number], error@),
            },
        ),
{
    match result {
        Ok(path) => {
            let mut message = "Saved itag ".to_owned();
            message.append(itag);
            message.append(" to ");
            message.append(path.as_str());
            table.complete(number, path, message);
        },
        Err(error) => {
            table.set_job_failed(number, error);
        },
    }
}

/// A query that names a video, a format and, with whatever values, a container and a video id is
/// taken, and what is then downloaded are the last of each, the format among those not empty.
pub proof fn a_complete_request_is_taken(
    pairs: Seq<(Seq<char>, Seq<char>)>,
    video: int,
    itag: int,
    container: int,
    video_id: int,
)
    requires
        0 <= video < pairs.len(),
        0 <= itag < pairs.len(),
        0 <= container < pairs.len(),
        0 <= video_id < pairs.len(),
        pairs[video].0 == "video"@,
        pairs[itag].0 == "itag"@,
        pairs[itag].1.len() > 0,
        pairs[container].0 == "container"@,
        pairs[video_id].0 == "video_id"@,
        forall|k: int| video < k < pairs.len() ==> (#[trigger] pairs[k]).0 != "video"@,
        forall|k: int|
            itag < k < pairs.len() ==> (#[trigger] pairs[k]).0 != "itag"@ || pairs[k].1.len() == 0,
        forall|k: int| container < k < pairs.len() ==> (#[trigger] pairs[k]).0 != "container"@,
        forall|k: int| video_id < k < pairs.len() ==> (#[trigger] pairs[k]).0 != "video_id"@,
    ensures
        requested(pairs) == Ok::<_, Seq<char>>(
            (RequestView {
                video: pairs[video].1,
                itag: pairs[itag].1,
                container: pairs[container].1,
                video_id: pairs[video_id].1,
            }),
        ),
{
    the_last_value_stands_last(pairs, "video"@);
    the_last_value_stands_last(pairs, "itag"@);
    the_last_value_stands_last(pairs, "container"@);
    the_last_value_stands_last(pairs, "video_id"@);
}

/// A query that lacks something is refused, and told what it lacks: the video first, then the
/// format, then the rest. A query that lacks nothing is never refused.
pub proof fn an_incomplete_request_is_refused(pairs: Seq<(Seq<char>, Seq<char>)>)
    ensures
        ({
            let no_video = forall|k: int|
                0 <= k < pairs.len() ==> (#[trigger] pairs[k]).0 != "video"@;
            let no_itag = forall|k: int|
                0 <= k < pairs.len() ==> (#[trigger] pairs[k]).0 != "itag"@ || pairs[k].1.len()
                    == 0;
            let no_container = forall|k: int|
                0 <= k < pairs.len() ==> (#[trigger] pairs[k]).0 != "container"@;
            let no_id = forall|k: int|
                0 <= k < pairs.len() ==> (#[trigger] pairs[k]).0 != "video_id"@;
            &&& no_video ==> requested(pairs) == Err::<RequestView, _>("Missing video"@)
            &&& !no_video && no_itag ==> requested(pairs) == Err::<RequestView, _>("Missing itag"@)
            &&& !no_video && !no_itag && (no_container || no_id) ==> requested(pairs) == Err::<
                RequestView,
                _,
            >("Missing container/video_id"@)
            &&& !no_video && !no_itag && !no_container && !no_id ==> requested(pairs) is Ok
        }),
        requested_by(None) == Err::<RequestView, _>("Missing query"@),
{
    the_last_value_stands_last(pairs, "video"@);
    the_last_value_stands_last(pairs, "itag"@);
    the_last_value_stands_last(pairs, "container"@);
    the_last_value_stands_last(pairs, "video_id"@);
}

/// What is said of a download that is done names its format and then its file.
pub proof fn a_saved_download_names_format_and_file(itag: Seq<char>, path: Seq<char>)
    ensures
        starts_with(saved_message(itag, path), "Saved itag "@ + itag),
        ends_with(saved_message(itag, path), " to "@ + path),
        saved_message(itag, path).len() == ("Saved itag "@ + itag).len() + (" to "@ + path).len(),
{
    let text = saved_message(itag, path);
    let front = "Saved itag "@ + itag;
    let back = " to "@ + path;
    assert(text.subrange(0, front.len() as int) =~= front);
    assert(text.subrange(text.len() - back.len(), text.len() as int) =~= back);
}

/// A download that starts is answered with the id under which its state is then reported, and with
/// its format.
pub proof fn a_started_download_can_be_followed(table: TableView, itag: Seq<char>)
    ensures
        started_reply(table.next, itag).status == "200 OK"@,
        started_reply(table.next, itag).content_type == "application/json"@,
        started_reply(table.next, itag).body == json_text(
            map![
                "status"@ => JsonView::Text("started"@),
                "jobId"@ => JsonView::Text(job_id_text(table.next)),
                "itag"@ => JsonView::Text(itag),
            ],
        ),
        status_reply_for(with_fresh_job(table), Some(job_id_text(table.next))).status == "200 OK"@,
{
    started_job_can_be_polled(table);
}

/// A download that ends well is reported as completed at one hundred percent, with its file; one
/// that ends badly as failed, with its error, at the progress that it had made.
pub proof fn a_download_that_ends_is_reported(
    table: TableView,
    number: u64,
    itag: Seq<char>,
    path: String,
    error: String,
)
    requires
        table.jobs.contains_key(number),
    ensures
        ({
            let job = download_ended_job(table.jobs[number], itag, Ok(path));
            &&& job.status == DownloadJobStatus::Completed
            &&& job.percent == 100
            &&& job.path == Some(path@)
            &&& job.message == Some("Saved itag "@ + itag + " to "@ + path@)
            &&& status_reply_for(with_job(table, number, job), Some(job_id_text(number))).body
                == json_text(job_fields(job))
        }),
        ({
            let job = download_ended_job(table.jobs[number], itag, Err(error));
            &&& job.status == DownloadJobStatus::Failed
            &&& job.error == Some(error@)
            &&& job.percent == table.jobs[number].percent
            &&& job.path == table.jobs[number].path
            &&& status_reply_for(with_job(table, number, job), Some(job_id_text(number))).body
                == json_text(job_fields(job))
        }),
{
    job_number_of_its_id(number);
}

} // verus!
