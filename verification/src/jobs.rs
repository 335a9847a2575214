//! Background jobs: downloads and merges whose progress a page polls.

use crate::form::{find_first_value, first_value, lemma_first_value, lemma_no_first_value};
use crate::form::{parse_query, query_pairs};
use crate::http::{bad_request, error_fields, json_reply, not_found, Response, ResponseView};
use crate::json::{new_object, no_fields, object_text, set_field, JsonField, JsonView};
use crate::numbers::{digit_char, hex_text, push_hex};
use crate::text::{chars_of, optional};
use std::collections::HashMap;
use vstd::prelude::*;

verus! {

broadcast use vstd::std_specs::hash::group_hash_axioms;

/// How far a job is.
#[derive(Clone, Copy, PartialEq, Eq, Structural)]
pub enum DownloadJobStatus {
    Running,
    Completed,
    Failed,
}

/// The name of a status.
pub open spec fn status_text(status: DownloadJobStatus) -> Seq<char> {
    match status {
        DownloadJobStatus::Running => "running"@,
        DownloadJobStatus::Completed => "completed"@,
        DownloadJobStatus::Failed => "failed"@,
    }
}

impl DownloadJobStatus {
    /// The name of the status.
    pub fn as_str(&self) -> (name: &'static str)
        ensures
            name@ == status_text(*self),
    {
        match self {
            DownloadJobStatus::Running => "running",
            DownloadJobStatus::Completed => "completed",
            DownloadJobStatus::Failed => "failed",
        }
    }
}

/// A job, as far as it is known.
pub struct DownloadJobState {
    pub percent: u8,
    pub status: DownloadJobStatus,
    pub message: Option<String>,
    pub path: Option<String>,
    pub error: Option<String>,
}

/// What is known of a job.
#[verifier::ext_equal]
pub struct JobView {
    pub percent: u8,
    pub status: DownloadJobStatus,
    pub message: Option<Seq<char>>,
    pub path: Option<Seq<char>>,
    pub error: Option<Seq<char>>,
}

impl View for DownloadJobState {
    type V = JobView;

    open spec fn view(&self) -> JobView {
        JobView {
            percent: self.percent,
            status: self.status,
            message: optional(self.message),
            path: optional(self.path),
            error: optional(self.error),
        }
    }
}

/// A job that has just started.
pub open spec fn fresh_job() -> JobView {
    JobView {
        percent: 0,
        status: DownloadJobStatus::Running,
        message: None,
        path: None,
        error: None,
    }
}

/// A job that has made progress.
pub open spec fn advanced_job(job: JobView, percent: u8) -> JobView {
    JobView { percent, ..job }
}

/// A job that has ended well and left a file.
pub open spec fn completed_job(job: JobView, path: Seq<char>, message: Seq<char>) -> JobView {
    JobView {
        percent: 100,
        status: DownloadJobStatus::Completed,
        message: Some(message),
        path: Some(path),
        ..job
    }
}

/// A job that has failed.
pub open spec fn failed_job(job: JobView, error: Seq<char>) -> JobView {
    JobView { status: DownloadJobStatus::Failed, error: Some(error), ..job }
}

/// The id of the job with the given number: sixteen hexadecimal digits.
pub open spec fn job_id_text(number: u64) -> Seq<char> {
    hex_text(number as nat, 16)
}

/// The number of the job with the given id.
pub open spec fn job_number(id: Seq<char>) -> Option<u64> {
    if exists|number: u64| job_id_text(number) == id {
        Some(choose|number: u64| job_id_text(number) == id)
    } else {
        None
    }
}

/// One more than the largest number with `width` hexadecimal digits.
spec fn hex_limit(width: nat) -> nat
    decreases width,
{
    if width == 0 {
        1
    } else {
        16 * hex_limit((width - 1) as nat)
    }
}

/// The digit that a character stands for; none where it is no hexadecimal digit in lower case.
spec fn hex_digit(ch: char) -> Option<nat> {
    if '0' <= ch && ch <= '9' {
        Some((ch as nat - 48) as nat)
    } else if 'a' <= ch && ch <= 'f' {
        Some((ch as nat - 87) as nat)
    } else {
        None
    }
}

/// The number that a run of hexadecimal digits stands for.
spec fn hex_value(text: Seq<char>) -> nat
    decreases text.len(),
{
    if text.len() == 0 {
        0
    } else {
        hex_value(text.drop_last()) * 16 + match hex_digit(text.last()) {
            Some(digit) => digit,
            None => 0,
        }
    }
}

/// Digits written for a number are as many as asked for, are digits, and stand for that number.
proof fn lemma_hex_text(number: nat, width: nat)
    requires
        number < hex_limit(width),
    ensures
        hex_text(number, width).len() == width,
        forall|i: int| 0 <= i < width ==> hex_digit(#[trigger] hex_text(number, width)[i]) is Some,
        hex_value(hex_text(number, width)) == number,
    decreases width,
{
    if width > 0 {
        let rest = hex_text(number / 16, (width - 1) as nat);
        lemma_hex_text(number / 16, (width - 1) as nat);
        let text = hex_text(number, width);
        assert(text.drop_last() =~= rest);
        assert forall|i: int| 0 <= i < width implies hex_digit(#[trigger] text[i]) is Some by {
            if i < width - 1 {
                assert(text[i] == rest[i]);
            }
        }
    }
}

/// The number that a run of digits stands for is written with these digits.
proof fn lemma_hex_value(text: Seq<char>)
    requires
        forall|i: int| 0 <= i < text.len() ==> hex_digit(#[trigger] text[i]) is Some,
    ensures
        hex_text(hex_value(text), text.len()) == text,
        hex_value(text) < hex_limit(text.len()),
    decreases text.len(),
{
    if text.len() > 0 {
        assert forall|i: int| 0 <= i < text.drop_last().len() implies hex_digit(
            #[trigger] text.drop_last()[i],
        ) is Some by {
            assert(text.drop_last()[i] == text[i]);
        }
        lemma_hex_value(text.drop_last());
        let digit = hex_digit(text[text.len() - 1])->0;
        let value = hex_value(text);
        assert(value / 16 == hex_value(text.drop_last()));
        assert(value % 16 == digit);
        assert(digit_char(digit as int) == text.last());
        assert(hex_text(value, text.len()) =~= text);
    }
}

proof fn lemma_hex_limit()
    ensures
        hex_limit(16) == 0x1_0000_0000_0000_0000,
{
    reveal_with_fuel(hex_limit, 17);
}

/// `ch` is a hexadecimal digit in lower case.
pub open spec fn is_hex_char(ch: char) -> bool {
    ('0' <= ch && ch <= '9') || ('a' <= ch && ch <= 'f')
}

/// Different jobs have different ids, each sixteen hexadecimal digits in lower case.
pub proof fn job_ids_are_distinct(first: u64, second: u64)
    ensures
        job_id_text(first).len() == 16,
        forall|i: int| 0 <= i < 16 ==> is_hex_char(#[trigger] job_id_text(first)[i]),
        job_id_text(first) == job_id_text(second) ==> first == second,
{
    lemma_hex_limit();
    lemma_hex_text(first as nat, 16);
    lemma_hex_text(second as nat, 16);
    assert forall|i: int| 0 <= i < 16 implies is_hex_char(#[trigger] job_id_text(first)[i]) by {
        assert(hex_digit(hex_text(first as nat, 16)[i]) is Some);
    }
}

/// The id of a job leads back to its number.
pub proof fn job_number_of_its_id(number: u64)
    ensures
        job_number(job_id_text(number)) == Some(number),
{
    let found = choose|other: u64| job_id_text(other) == job_id_text(number);
    job_ids_are_distinct(found, number);
}

/// The id of the job with the given number.
pub fn job_id(number: u64) -> (id: String)
    ensures
        id@ == job_id_text(number),
{
    let mut id = String::new();
    push_hex(&mut id, number, 16);
    assert(id@ =~= job_id_text(number));
    id
}

/// The digit that a character stands for.
fn parse_hex_digit(ch: char) -> (digit: Option<u8>)
    ensures
        hex_digit(ch) == (match digit {
            Some(value) => Some(value as nat),
            None => None,
        }),
        digit matches Some(value) ==> value < 16,
{
    if '0' <= ch && ch <= '9' {
        Some(ch as u8 - 48)
    } else if 'a' <= ch && ch <= 'f' {
        Some(ch as u8 - 87)
    } else {
        None
    }
}

/// The number of the job with the given id.
pub fn parse_job_id(id: &str) -> (number: Option<u64>)
    ensures
        number == job_number(id@),
{
    let chars = chars_of(id);
    proof {
        lemma_hex_limit();
        if job_number(id@) is Some {
            lemma_hex_text(job_number(id@)->0 as nat, 16);
        }
    }
    if chars.len() != 16 {
        return None;
    }
    let mut value: u64 = 0;
    let mut i: usize = 0;
    while i < 16
        invariant
            i <= 16,
            chars@ == id@,
            chars@.len() == 16,
            value == hex_value(id@.take(i as int)),
            value < hex_limit(i as nat),
            forall|k: int| 0 <= k < i ==> hex_digit(#[trigger] id@[k]) is Some,
            job_number(id@) is Some ==> (forall|k: int|
                0 <= k < 16 ==> hex_digit(#[trigger] id@[k]) is Some),
        decreases 16 - i,
    {
        match parse_hex_digit(chars[i]) {
            Some(digit) => {
                proof {
                    assert(id@.take(i + 1).drop_last() =~= id@.take(i as int));
                    reveal_with_fuel(hex_limit, 17);
                }
                value = value * 16 + digit as u64;
                i = i + 1;
            },
            None => {
                assert(hex_digit(id@[i as int]) is None);
                return None;
            },
        }
    }
    proof {
        assert(id@.take(16) =~= id@);
        lemma_hex_value(id@);
        assert(job_id_text(value) == id@);
        job_number_of_its_id(value);
    }
    Some(value)
}

/// All jobs since the start, and the number of the next one.
pub struct JobTable {
    pub next: u64,
    pub jobs: HashMap<u64, DownloadJobState>,
}

/// All jobs since the start, and the number of the next one.
#[verifier::ext_equal]
pub struct TableView {
    pub next: u64,
    pub jobs: Map<u64, JobView>,
}

impl View for JobTable {
    type V = TableView;

    open spec fn view(&self) -> TableView {
        TableView {
            next: self.next,
            jobs: self.jobs@.map_values(|job: DownloadJobState| job@),
        }
    }
}

/// `table` with a job changed, if there is one with this number.
pub open spec fn with_job(table: TableView, number: u64, job: JobView) -> TableView {
    if table.jobs.contains_key(number) {
        TableView { jobs: table.jobs.insert(number, job), ..table }
    } else {
        table
    }
}

/// `table` with a job more.
pub open spec fn with_fresh_job(table: TableView) -> TableView {
    TableView {
        next: if table.next == u64::MAX {
            0
        } else {
            (table.next + 1) as u64
        },
        jobs: table.jobs.insert(table.next, fresh_job()),
    }
}

impl JobTable {
    /// A table without jobs.
    pub fn new() -> (table: Self)
        ensures
            table@.next == 1,
            table@.jobs == Map::<u64, JobView>::empty(),
            numbers_in_order(table@),
    {
        let table = JobTable { next: 1, jobs: HashMap::new() };
        assert(table@.jobs =~= Map::<u64, JobView>::empty());
        table
    }

    /// Enters a job that starts now.
    pub fn start(&mut self) -> (number: u64)
        ensures
            number == old(self)@.next,
            final(self)@ == with_fresh_job(old(self)@),
    {
        let number = self.next;
        let job = DownloadJobState {
            percent: 0,
            status: DownloadJobStatus::Running,
            message: None,
            path: None,
            error: None,
        };
        self.next = if number == u64::MAX {
            0
        } else {
            number + 1
        };
        self.jobs.insert(number, job);
        assert(self@ =~= with_fresh_job(old(self)@));
        number
    }

    /// Notes the progress of a job.
    pub fn set_percent(&mut self, number: u64, percent: u8)
        ensures
            final(self)@ == with_job(
                old(self)@,
                number,
                advanced_job(old(self)@.jobs[number], percent),
            ),
    {
        if let Some(job) = self.jobs.remove(&number) {
            self.jobs.insert(number, DownloadJobState { percent, ..job });
        }
        assert(self@ =~= with_job(
            old(self)@,
            number,
            advanced_job(old(self)@.jobs[number], percent),
        ));
    }

    /// Notes that a job has ended well and left the file `path`.
    pub fn complete(&mut self, number: u64, path: String, message: String)
        ensures
            final(self)@ == with_job(
                old(self)@,
                number,
                completed_job(old(self)@.jobs[number], path@, message@),
            ),
    {
        let ghost end = with_job(
            self@,
            number,
            completed_job(self@.jobs[number], path@, message@),
        );
        if let Some(job) = self.jobs.remove(&number) {
            let job = DownloadJobState {
                percent: 100,
                status: DownloadJobStatus::Completed,
                message: Some(message),
                path: Some(path),
                error: job.error,
            };
            self.jobs.insert(number, job);
        }
        assert(self@ =~= end);
    }

    /// Notes that a job has failed.
    pub fn set_job_failed(&mut self, number: u64, error: String)
        ensures
            final(self)@ == with_job(
                old(self)@,
                number,
                failed_job(old(self)@.jobs[number], error@),
            ),
    {
        let ghost end = with_job(self@, number, failed_job(self@.jobs[number], error@));
        if let Some(job) = self.jobs.remove(&number) {
            let job = DownloadJobState {
                percent: job.percent,
                status: DownloadJobStatus::Failed,
                message: job.message,
                path: job.path,
                error: Some(error),
            };
            self.jobs.insert(number, job);
        }
        assert(self@ =~= end);
    }
}

/// An optional text as a field.
pub open spec fn optional_field(text: Option<Seq<char>>) -> JsonView {
    match text {
        Some(inner) => JsonView::Text(inner),
        None => JsonView::Null,
    }
}

/// The fields of a report on a job.
pub open spec fn job_fields(job: JobView) -> Map<Seq<char>, JsonView> {
    no_fields().insert("status"@, JsonView::Text(status_text(job.status))).insert(
        "percent"@,
        JsonView::Number(job.percent as u64),
    ).insert("message"@, optional_field(job.message)).insert(
        "path"@,
        optional_field(job.path),
    ).insert("error"@, optional_field(job.error))
}

/// The answer to a request for the state of a job: the query names it by its id.
pub open spec fn status_reply(table: TableView, query: Option<Seq<char>>) -> ResponseView {
    let id = match query {
        Some(text) => first_value(query_pairs(text), "id"@),
        None => None,
    };
    status_reply_for(table, id)
}

/// The answer to a request for the state of the job with the given id.
pub open spec fn status_reply_for(table: TableView, id: Option<Seq<char>>) -> ResponseView {
    if id is None {
        json_reply("400 Bad Request"@, error_fields("Missing id"@))
    } else if job_number(id->0) is None || !table.jobs.contains_key(job_number(id->0)->0) {
        json_reply("404 Not Found"@, error_fields("Job not found"@))
    } else {
        json_reply("200 OK"@, job_fields(table.jobs[job_number(id->0)->0]))
    }
}

impl JobTable {
    /// Reports on the job with the given id.
    pub fn report(&self, id: &Option<String>) -> (reply: Response)
        ensures
            reply@ == status_reply_for(self@, optional(*id)),
    {
        match id {
            Some(text) => match parse_job_id(text.as_str()) {
                Some(number) => match self.jobs.get(&number) {
                    Some(job) => {
                        assert(self@.jobs[number] == job@);
                        let mut object = new_object();
                        set_field(
                            &mut object,
                            "status",
                            JsonField::Text(job.status.as_str().to_owned()),
                        );
                        set_field(&mut object, "percent", JsonField::Number(job.percent as u64));
                        set_field(
                            &mut object,
                            "message",
                            JsonField::Optional(job.message.clone()),
                        );
                        set_field(&mut object, "path", JsonField::Optional(job.path.clone()));
                        set_field(&mut object, "error", JsonField::Optional(job.error.clone()));
                        Response {
                            status: "200 OK".to_owned(),
                            body: object_text(object),
                            content_type: "application/json".to_owned(),
                        }
                    },
                    None => not_found("Job not found"),
                },
                None => not_found("Job not found"),
            },
            None => bad_request("Missing id"),
        }
    }

    /// Answers a request for the state of a job.
    pub fn handle_download_status(&self, query: &Option<String>) -> (reply: Response)
        ensures
            reply@ == status_reply(self@, optional(*query)),
    {
        let id = match query {
            Some(text) => {
                let pairs = parse_query(text.as_str());
                find_first_value(&pairs, "id")
            },
            None => None,
        };
        self.report(&id)
    }
}

/// A job that has just been started is found under its id, running and without progress.
pub proof fn started_job_can_be_polled(table: TableView)
    ensures
        status_reply_for(with_fresh_job(table), Some(job_id_text(table.next))) == json_reply(
            "200 OK"@,
            job_fields(fresh_job()),
        ),
{
    job_number_of_its_id(table.next);
}

/// What happens to one job is not seen in the report on another.
pub proof fn jobs_do_not_disturb_each_other(
    table: TableView,
    changed: u64,
    job: JobView,
    other: Seq<char>,
)
    requires
        other != job_id_text(changed),
    ensures
        status_reply_for(with_job(table, changed, job), Some(other)) == status_reply_for(
            table,
            Some(other),
        ),
{
    if job_number(other) is Some {
        assert(job_id_text(job_number(other)->0) == other);
    }
}

/// Starting a job is not seen in the report on any other.
pub proof fn starting_a_job_keeps_the_others(table: TableView, other: Seq<char>)
    requires
        other != job_id_text(table.next),
    ensures
        status_reply_for(with_fresh_job(table), Some(other)) == status_reply_for(
            table,
            Some(other),
        ),
{
    if job_number(other) is Some {
        assert(job_id_text(job_number(other)->0) == other);
    }
}

/// Every job has a number below the next one.
pub open spec fn numbers_in_order(table: TableView) -> bool {
    forall|number: u64| #[trigger] table.jobs.contains_key(number) ==> number < table.next
}

/// As long as the numbers have not run out, a job that starts gets one that no job has, and every
/// change of the table leaves it so.
pub proof fn a_started_job_replaces_no_other(table: TableView, number: u64, job: JobView)
    requires
        numbers_in_order(table),
    ensures
        !table.jobs.contains_key(table.next),
        table.next < u64::MAX ==> numbers_in_order(with_fresh_job(table)),
        numbers_in_order(with_job(table, number, job)),
{
    let started = with_fresh_job(table);
    assert forall|other: u64| #[trigger] started.jobs.contains_key(other) && table.next
        < u64::MAX implies other < started.next by {
        assert(other == table.next || table.jobs.contains_key(other));
    }
    let changed = with_job(table, number, job);
    assert forall|other: u64| #[trigger] changed.jobs.contains_key(other) implies other
        < changed.next by {
        assert(table.jobs.contains_key(other));
    }
}

/// A job that has ended well is reported as such, at one hundred percent and with its file.
pub proof fn completed_job_is_reported(
    table: TableView,
    number: u64,
    path: Seq<char>,
    message: Seq<char>,
)
    requires
        table.jobs.contains_key(number),
    ensures
        ({
            let job = completed_job(table.jobs[number], path, message);
            &&& status_reply_for(with_job(table, number, job), Some(job_id_text(number)))
                == json_reply("200 OK"@, job_fields(job))
            &&& job_fields(job)["percent"@] == JsonView::Number(100)
            &&& job_fields(job)["status"@] == JsonView::Text("completed"@)
            &&& job_fields(job)["path"@] == JsonView::Text(path)
            &&& job_fields(job)["message"@] == JsonView::Text(message)
        }),
{
    job_number_of_its_id(number);
    lemma_field_names();
}

/// A job that has failed is reported as such, with its error.
pub proof fn failed_job_is_reported(table: TableView, number: u64, error: Seq<char>)
    requires
        table.jobs.contains_key(number),
    ensures
        ({
            let job = failed_job(table.jobs[number], error);
            &&& status_reply_for(with_job(table, number, job), Some(job_id_text(number)))
                == json_reply("200 OK"@, job_fields(job))
            &&& job_fields(job)["status"@] == JsonView::Text("failed"@)
            &&& job_fields(job)["error"@] == JsonView::Text(error)
        }),
{
    job_number_of_its_id(number);
    lemma_field_names();
}

/// The names of the fields of a report differ.
proof fn lemma_field_names()
    ensures
        "status"@ != "percent"@,
        "status"@ != "message"@,
        "status"@ != "path"@,
        "status"@ != "error"@,
        "percent"@ != "message"@,
        "percent"@ != "path"@,
        "percent"@ != "error"@,
        "message"@ != "path"@,
        "message"@ != "error"@,
        "path"@ != "error"@,
{
    reveal_strlit("status");
    reveal_strlit("percent");
    reveal_strlit("message");
    reveal_strlit("path");
    reveal_strlit("error");
    assert("status"@[0] == 's');
    assert("percent"@[0] == 'p' && "percent"@.len() == 7);
    assert("message"@[0] == 'm');
    assert("path"@[0] == 'p' && "path"@.len() == 4);
    assert("error"@[0] == 'e');
}

/// The id of a job is its number in sixteen hexadecimal digits: the last digit is the number modulo
/// sixteen, and those before it are the id of the rest without its first zero.
pub proof fn an_id_is_its_number_in_hexadecimal(rest: u64, digit: u64)
    requires
        digit < 16,
        rest < 0x1000_0000_0000_0000,
    ensures
        ({
            let number = (16 * rest + digit) as u64;
            &&& job_id_text(number).drop_last() == job_id_text(rest).skip(1)
            &&& job_id_text(rest)[0] == '0'
            &&& digit < 10 ==> job_id_text(number).last() as u32 == '0' as u32 + digit
            &&& digit >= 10 ==> job_id_text(number).last() as u32 == 'a' as u32 + digit - 10
        }),
{
    let number = (16 * rest + digit) as u64;
    assert(number as nat / 16 == rest as nat);
    assert(number as nat % 16 == digit as nat);
    assert(hex_limit(15) == 0x1000_0000_0000_0000) by {
        reveal_with_fuel(hex_limit, 16);
    }
    lemma_hex_head(rest as nat, 15);
    assert(hex_text(rest as nat, 16) =~= seq!['0'] + hex_text(rest as nat, 15));
    assert(job_id_text(number).drop_last() =~= hex_text(rest as nat, 15));
    assert(job_id_text(rest).skip(1) =~= hex_text(rest as nat, 15));
}

/// A digit more than a number needs is a zero before it.
proof fn lemma_hex_head(number: nat, width: nat)
    requires
        number < hex_limit(width),
    ensures
        hex_text(number, width + 1) == seq!['0'] + hex_text(number, width),
    decreases width,
{
    if width == 0 {
        assert(number == 0);
        reveal_with_fuel(hex_text, 2);
        assert(hex_text(0, 1) =~= seq!['0']);
        assert(hex_text(number, width + 1) =~= seq!['0'] + hex_text(number, width));
    } else {
        lemma_hex_head(number / 16, (width - 1) as nat);
        assert(hex_text(number, width + 1) =~= hex_text(number / 16, width).push(
            digit_char((number % 16) as int),
        ));
        assert(hex_text(number, width + 1) =~= seq!['0'] + hex_text(number, width));
    }
}

/// A report on a job holds its status, its progress, and message, file and error as far as there
/// are any, each under its own name and nothing else.
pub proof fn a_report_holds_what_is_known_of_the_job(job: JobView)
    ensures
        ({
            let field = |text: Option<Seq<char>>|
                match text {
                    Some(inner) => JsonView::Text(inner),
                    None => JsonView::Null,
                };
            let status = match job.status {
                DownloadJobStatus::Running => "running"@,
                DownloadJobStatus::Completed => "completed"@,
                DownloadJobStatus::Failed => "failed"@,
            };
            job_fields(job) == map![
                "status"@ => JsonView::Text(status),
                "percent"@ => JsonView::Number(job.percent as u64),
                "message"@ => field(job.message),
                "path"@ => field(job.path),
                "error"@ => field(job.error),
            ]
        }),
{
}

/// What happens to a job changes what it is about and nothing else: progress keeps status, message,
/// file and error; success keeps the error; a failure keeps progress, message and file. A job that
/// starts is running, has made no progress, and has nothing to tell.
pub proof fn a_job_changes_only_where_something_happened(
    job: JobView,
    percent: u8,
    path: Seq<char>,
    message: Seq<char>,
)
    ensures
        ({
            let advanced = advanced_job(job, percent);
            &&& advanced.percent == percent
            &&& advanced.status == job.status
            &&& advanced.message == job.message
            &&& advanced.path == job.path
            &&& advanced.error == job.error
        }),
        ({
            let completed = completed_job(job, path, message);
            &&& completed.percent == 100
            &&& completed.status == DownloadJobStatus::Completed
            &&& completed.message == Some(message)
            &&& completed.path == Some(path)
            &&& completed.error == job.error
        }),
        ({
            let failed = failed_job(job, message);
            &&& failed.percent == job.percent
            &&& failed.status == DownloadJobStatus::Failed
            &&& failed.message == job.message
            &&& failed.path == job.path
            &&& failed.error == Some(message)
        }),
        fresh_job().percent == 0,
        fresh_job().status == DownloadJobStatus::Running,
        fresh_job().message is None,
        fresh_job().path is None,
        fresh_job().error is None,
{
}

/// A job that has made progress is reported with it.
pub proof fn progress_is_reported(table: TableView, number: u64, percent: u8)
    requires
        table.jobs.contains_key(number),
    ensures
        ({
            let job = advanced_job(table.jobs[number], percent);
            &&& status_reply_for(with_job(table, number, job), Some(job_id_text(number)))
                == json_reply("200 OK"@, job_fields(job))
            &&& job_fields(job)["percent"@] == JsonView::Number(percent as u64)
        }),
{
    job_number_of_its_id(number);
    lemma_field_names();
}

/// The state of a job is asked for by the first id in the query. Without one the request is bad; an
/// id under which there is no job is not found.
pub proof fn the_state_is_asked_for_by_the_first_id(
    table: TableView,
    query: Seq<char>,
    at: int,
    id: Seq<char>,
)
    requires
        0 <= at < query_pairs(query).len(),
        query_pairs(query)[at] == ("id"@, id),
        forall|k: int| 0 <= k < at ==> (#[trigger] query_pairs(query)[k]).0 != "id"@,
    ensures
        status_reply(table, Some(query)) == status_reply_for(table, Some(id)),
        (forall|number: u64| #[trigger]
            table.jobs.contains_key(number) ==> job_id_text(number) != id) ==> status_reply(
            table,
            Some(query),
        ) == json_reply("404 Not Found"@, error_fields("Job not found"@)),
{
    lemma_first_value(query_pairs(query), "id"@, at);
    if job_number(id) is Some {
        assert(job_id_text(job_number(id)->0) == id);
    }
}

/// A request for a state that names no job is bad.
pub proof fn a_state_without_an_id_is_a_bad_request(table: TableView, query: Seq<char>)
    requires
        forall|k: int|
            0 <= k < query_pairs(query).len() ==> (#[trigger] query_pairs(query)[k]).0 != "id"@,
    ensures
        status_reply(table, Some(query)) == json_reply(
            "400 Bad Request"@,
            error_fields("Missing id"@),
        ),
        status_reply(table, None) == json_reply("400 Bad Request"@, error_fields("Missing id"@)),
{
    lemma_no_first_value(query_pairs(query), "id"@);
}

/// A job that starts takes the next number, and the one after it is then the next; nothing else in
/// the table changes. A change of a job changes that job alone, and a change of a job that does not
/// exist changes nothing.
pub proof fn a_table_changes_in_one_place(table: TableView, number: u64, job: JobView, other: u64)
    ensures
        ({
            let started = with_fresh_job(table);
            &&& table.next < u64::MAX ==> started.next == table.next + 1
            &&& table.next == u64::MAX ==> started.next == 0
            &&& started.jobs.contains_key(table.next)
            &&& started.jobs[table.next] == fresh_job()
            &&& other != table.next ==> (started.jobs.contains_key(other)
                <==> table.jobs.contains_key(other))
            &&& other != table.next && table.jobs.contains_key(other) ==> started.jobs[other]
                == table.jobs[other]
        }),
        ({
            let changed = with_job(table, number, job);
            &&& changed.next == table.next
            &&& changed.jobs.contains_key(other) <==> table.jobs.contains_key(other)
            &&& table.jobs.contains_key(number) ==> changed.jobs[number] == job
            &&& other != number && table.jobs.contains_key(other) ==> changed.jobs[other]
                == table.jobs[other]
            &&& !table.jobs.contains_key(number) ==> changed == table
        }),
{
}

} // verus!
