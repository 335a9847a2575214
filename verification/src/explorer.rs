//! The file explorer: the list of what was downloaded, and the folder it lies in.

use crate::http::{error_fields, json_error, json_reply, Response, ResponseView};
use crate::json::{all_fields, json_text, new_object, no_fields, object_fields, object_list};
use crate::json::{object_text, set_field, JsonField, JsonObject, JsonView};
use crate::order::{arrange, arrangement_exists, arrangement_is_unique, index_views};
use crate::order::{is_arrangement, is_strict_order, is_text_before, lemma_text_before_total};
use crate::order::{lemma_text_before_transitive, text_before, Precedence};
use crate::text::{chars_of, stands_at, starts_with, string_of, two_texts};
use vstd::prelude::*;
use vstd::slice::slice_subrange;

verus! {

/// A file in the download folder.
pub struct FileEntry {
    pub name: String,
    /// Its length in bytes.
    pub size: u64,
    /// When it was last written, in seconds since 1970.
    pub modified: u64,
    pub has_video: bool,
    pub has_audio: bool,
}

/// What is known of a file, with its name as characters.
#[verifier::ext_equal]
pub struct EntryView {
    pub name: Seq<char>,
    pub size: u64,
    pub modified: u64,
    pub has_video: bool,
    pub has_audio: bool,
}

impl View for FileEntry {
    type V = EntryView;

    open spec fn view(&self) -> EntryView {
        EntryView {
            name: self.name@,
            size: self.size,
            modified: self.modified,
            has_video: self.has_video,
            has_audio: self.has_audio,
        }
    }
}

/// What is known of each file of a list.
pub open spec fn entry_views(entries: Seq<FileEntry>) -> Seq<EntryView> {
    entries.map_values(|entry: FileEntry| entry@)
}

/// The kind of a file, after the streams in it.
pub open spec fn kind_text(has_video: bool, has_audio: bool) -> Seq<char> {
    if has_video {
        "video"@
    } else if has_audio {
        "audio"@
    } else {
        "other"@
    }
}

/// What is told of a file.
pub open spec fn entry_fields(entry: EntryView) -> Map<Seq<char>, JsonView> {
    no_fields().insert("name"@, JsonView::Text(entry.name)).insert(
        "size"@,
        JsonView::Number(entry.size),
    ).insert("modified"@, JsonView::Number(entry.modified)).insert(
        "type"@,
        JsonView::Text(kind_text(entry.has_video, entry.has_audio)),
    ).insert("hasAudio"@, JsonView::Flag(entry.has_audio)).insert(
        "hasVideo"@,
        JsonView::Flag(entry.has_video),
    )
}

/// File `left` is listed before file `right`: by name, and in the order found where names are
/// equal.
pub open spec fn listed_before(entries: Seq<EntryView>, left: int, right: int) -> bool {
    ||| text_before(entries[left].name, entries[right].name)
    ||| entries[left].name == entries[right].name && left < right
}

/// `order` holds the indices of all files, in the order in which they are listed.
pub open spec fn is_file_order(entries: Seq<EntryView>, order: Seq<int>) -> bool {
    is_arrangement(
        order,
        |k: int| 0 <= k < entries.len(),
        |left: int, right: int| listed_before(entries, left, right),
    )
}

/// The indices of all files, in the order in which they are listed.
pub open spec fn file_order(entries: Seq<EntryView>) -> Seq<int> {
    choose|order: Seq<int>| is_file_order(entries, order)
}

/// The answer that lists the files.
pub open spec fn files_reply(entries: Seq<EntryView>) -> ResponseView {
    json_reply(
        "200 OK"@,
        no_fields().insert(
            "files"@,
            object_list(file_order(entries).map_values(|k: int| entry_fields(entries[k]))),
        ),
    )
}

proof fn lemma_listed_before_strict(entries: Seq<EntryView>)
    ensures
        is_strict_order(|left: int, right: int| listed_before(entries, left, right)),
{
    let before = |left: int, right: int| listed_before(entries, left, right);
    assert forall|a: int| !#[trigger] before(a, a) by {
        lemma_text_before_total(entries[a].name, entries[a].name);
    }
    assert forall|a: int, b: int| a != b implies #[trigger] before(a, b) || before(b, a) by {
        lemma_text_before_total(entries[a].name, entries[b].name);
    }
    assert forall|a: int, b: int, c: int| #[trigger]
        before(a, b) && #[trigger] before(b, c) implies before(a, c) by {
        if text_before(entries[a].name, entries[b].name) && text_before(
            entries[b].name,
            entries[c].name,
        ) {
            lemma_text_before_transitive(entries[a].name, entries[b].name, entries[c].name);
        }
    }
}

/// The order of the files in a list.
struct ByName<'a> {
    entries: &'a Vec<FileEntry>,
}

impl<'a> Precedence for ByName<'a> {
    closed spec fn covers(&self, index: int) -> bool {
        0 <= index < self.entries@.len()
    }

    closed spec fn before(&self, left: int, right: int) -> bool {
        listed_before(entry_views(self.entries@), left, right)
    }

    proof fn strict(&self) {
        lemma_listed_before_strict(entry_views(self.entries@));
        assert((|left: int, right: int| self.before(left, right)) =~= (|left: int, right: int|
            listed_before(entry_views(self.entries@), left, right)));
    }

    fn precedes(&self, left: usize, right: usize) -> (before: bool) {
        let left_name = self.entries[left].name.as_str();
        let right_name = self.entries[right].name.as_str();
        proof {
            lemma_text_before_total(left_name@, right_name@);
        }
        is_text_before(left_name, right_name) || (!is_text_before(right_name, left_name) && left
            < right)
    }
}

/// What is told of a file.
fn entry_object(entry: &FileEntry) -> (object: JsonObject)
    ensures
        object_fields(object) == entry_fields(entry@),
{
    let kind = if entry.has_video {
        "video"
    } else if entry.has_audio {
        "audio"
    } else {
        "other"
    };
    let mut object = new_object();
    set_field(&mut object, "name", JsonField::Text(entry.name.clone()));
    set_field(&mut object, "size", JsonField::Number(entry.size));
    set_field(&mut object, "modified", JsonField::Number(entry.modified));
    set_field(&mut object, "type", JsonField::Text(kind.to_owned()));
    set_field(&mut object, "hasAudio", JsonField::Flag(entry.has_audio));
    set_field(&mut object, "hasVideo", JsonField::Flag(entry.has_video));
    object
}

/// The answer that lists the files found in the download folder, sorted by name.
pub fn list_files_reply(entries: &Vec<FileEntry>) -> (reply: Response)
    ensures
        reply@ == files_reply(entry_views(entries@)),
{
    let ghost all = entry_views(entries@);
    let mut chosen: Vec<bool> = Vec::new();
    let mut i: usize = 0;
    while i < entries.len()
        invariant
            i <= entries.len(),
            chosen@.len() == i,
            forall|k: int| 0 <= k < i ==> #[trigger] chosen@[k],
        decreases entries.len() - i,
    {
        chosen.push(true);
        i = i + 1;
    }
    let by_name = ByName { entries };
    let list = arrange(&by_name, &chosen);
    let ghost order = index_views(list@);
    proof {
        assert((|k: int| 0 <= k < chosen@.len() && chosen@[k]) =~= (|k: int|
            0 <= k < all.len()));
        assert((|left: int, right: int| by_name.before(left, right)) =~= (|left: int, right: int|
            listed_before(all, left, right)));
        assert(is_file_order(all, order));
        file_order_is_the_one(all, order);
    }
    let mut files: Vec<JsonObject> = Vec::new();
    let ghost told = order.map_values(|k: int| entry_fields(all[k]));
    let mut at: usize = 0;
    assert(all_fields(files@) =~= told.take(0));
    while at < list.len()
        invariant
            at <= list.len(),
            all == entry_views(entries@),
            order == index_views(list@),
            told == order.map_values(|k: int| entry_fields(all[k])),
            chosen.len() == entries.len(),
            forall|i: int| 0 <= i < list@.len() ==> (#[trigger] list@[i]) < chosen.len(),
            all_fields(files@) == told.take(at as int),
        decreases list.len() - at,
    {
        let object = entry_object(&entries[list[at]]);
        assert(all[list@[at as int] as int] == entries@[list@[at as int] as int]@);
        assert(told[at as int] == object_fields(object));
        let ghost earlier = all_fields(files@);
        files.push(object);
        assert(all_fields(files@) =~= earlier.push(told[at as int]));
        at = at + 1;
        assert(told.take(at as int) =~= told.take(at - 1).push(told[at - 1]));
    }
    assert(told.take(at as int) =~= told);
    let mut object = new_object();
    set_field(&mut object, "files", JsonField::Objects(files));
    Response {
        status: "200 OK".to_owned(),
        body: object_text(object),
        content_type: "application/json".to_owned(),
    }
}

/// The order in which files are listed is the only one with all of them, sorted by name and, where
/// names are equal, as they were found.
pub proof fn file_order_is_the_one(entries: Seq<EntryView>, order: Seq<int>)
    ensures
        is_file_order(entries, file_order(entries)),
        is_file_order(entries, order) <==> order == file_order(entries),
{
    let chosen = |k: int| 0 <= k < entries.len();
    let before = |left: int, right: int| listed_before(entries, left, right);
    lemma_listed_before_strict(entries);
    let some = arrangement_exists(entries.len(), chosen, before);
    assert(is_file_order(entries, some));
    if is_file_order(entries, order) {
        arrangement_is_unique(order, file_order(entries), chosen, before);
    }
}

/// Of two files in the list the later one never has a name that comes before that of the earlier
/// one.
pub proof fn files_are_sorted_by_name(entries: Seq<EntryView>, i: int, j: int)
    requires
        0 <= i <= j < file_order(entries).len(),
    ensures
        file_order(entries).len() == entries.len(),
        !text_before(
            entries[file_order(entries)[j]].name,
            entries[file_order(entries)[i]].name,
        ),
{
    let order = file_order(entries);
    file_order_is_the_one(entries, order);
    let before = |left: int, right: int| listed_before(entries, left, right);
    let chosen = |k: int| 0 <= k < entries.len();
    lemma_text_before_total(entries[order[i]].name, entries[order[j]].name);
    if i < j {
        assert(before(order[i], order[j]));
    }
    lemma_listed_before_strict(entries);
    assert(order.no_duplicates()) by {
        assert forall|a: int, b: int|
            0 <= a < order.len() && 0 <= b < order.len() && a != b implies order[a] != order[b] by {
            if a < b {
                assert(before(order[a], order[b]));
            } else {
                assert(before(order[b], order[a]));
            }
        }
    }
    let all = Seq::new(entries.len(), |k: int| k);
    assert(order.to_set() =~= all.to_set()) by {
        assert forall|k: int| order.to_set().contains(k) <==> all.to_set().contains(k) by {
            assert(order.contains(k) <==> chosen(k));
            if chosen(k) {
                assert(all[k] == k);
            }
        }
    }
    order.unique_seq_to_set();
    all.unique_seq_to_set();
}

/// A path without the marker that Windows puts before canonical ones.
pub open spec fn plain_path(path: Seq<char>) -> Seq<char> {
    if starts_with(path, "\\\\?\\"@) {
        path.skip(4)
    } else {
        path
    }
}

/// A path as a file explorer accepts it.
pub fn clean_path(path: &str) -> (cleaned: String)
    ensures
        cleaned@ == plain_path(path@),
{
    let chars = chars_of(path);
    let marker = chars_of("\\\\?\\");
    proof {
        reveal_strlit("\\\\?\\");
        assert("\\\\?\\"@.len() == 4);
    }
    if stands_at(chars.as_slice(), marker.as_slice(), 0) {
        assert(chars@.subrange(4, chars@.len() as int) =~= chars@.skip(4));
        string_of(slice_subrange(chars.as_slice(), 4, chars.len()))
    } else {
        string_of(chars.as_slice())
    }
}

/// The answer that says that the folder cannot be made.
pub fn create_failure(error: &str) -> (reply: Response)
    ensures
        reply@ == json_reply("200 OK"@, error_fields("Could not create folder: "@ + error@)),
{
    let message = two_texts("Could not create folder: ", error);
    json_error(message.as_str())
}

/// The answer that tells how opening the folder `path` went, with the error if there was one.
pub open spec fn folder_reply(path: Seq<char>, error: Option<Seq<char>>) -> ResponseView {
    match error {
        None => json_reply(
            "200 OK"@,
            no_fields().insert("status"@, JsonView::Text("ok"@)).insert(
                "path"@,
                JsonView::Text(path),
            ),
        ),
        Some(text) => json_reply("200 OK"@, error_fields("Could not open folder: "@ + text)),
    }
}

/// The answer that tells how opening the folder `path` went.
pub fn open_folder_reply(path: &str, outcome: Result<(), String>) -> (reply: Response)
    ensures
        reply@ == (match outcome {
            Ok(()) => json_reply(
                "200 OK"@,
                no_fields().insert("status"@, JsonView::Text("ok"@)).insert(
                    "path"@,
                    JsonView::Text(path@),
                ),
            ),
            Err(error) => json_reply(
                "200 OK"@,
                error_fields("Could not open folder: "@ + error@),
            ),
        }),
        reply@ == folder_reply(
            path@,
            match outcome {
                Ok(()) => None,
                Err(error) => Some(error@),
            },
        ),
{
    match outcome {
        Ok(_) => {
            let mut object = new_object();
            set_field(&mut object, "status", JsonField::Text("ok".to_owned()));
            set_field(&mut object, "path", JsonField::Text(path.to_owned()));
            Response {
                status: "200 OK".to_owned(),
                body: object_text(object),
                content_type: "application/json".to_owned(),
            }
        },
        Err(error) => {
            let message = two_texts("Could not open folder: ", error.as_str());
            json_error(message.as_str())
        },
    }
}

/// Of a file is told what is known of it, each under its own name, and its kind: video where it has
/// video, else audio where it has audio, else other.
pub proof fn an_entry_tells_what_is_known_of_the_file(entry: EntryView)
    ensures
        ({
            let kind = |name: Seq<char>|
                entry_fields(entry) == map![
                    "name"@ => JsonView::Text(entry.name),
                    "size"@ => JsonView::Number(entry.size),
                    "modified"@ => JsonView::Number(entry.modified),
                    "type"@ => JsonView::Text(name),
                    "hasAudio"@ => JsonView::Flag(entry.has_audio),
                    "hasVideo"@ => JsonView::Flag(entry.has_video),
                ];
            &&& entry.has_video ==> kind("video"@)
            &&& !entry.has_video && entry.has_audio ==> kind("audio"@)
            &&& !entry.has_video && !entry.has_audio ==> kind("other"@)
        }),
{
}

/// Each file is listed exactly once; files of the same name stand in the order in which they were
/// found.
pub proof fn each_file_is_listed_once(entries: Seq<EntryView>, k: int)
    requires
        0 <= k < entries.len(),
    ensures
        file_order(entries).contains(k),
        file_order(entries).no_duplicates(),
        forall|i: int, j: int|
            0 <= i < j < file_order(entries).len()
                && entries[#[trigger] file_order(entries)[i]].name
                == entries[#[trigger] file_order(entries)[j]].name ==> file_order(entries)[i]
                < file_order(entries)[j],
{
    let order = file_order(entries);
    file_order_is_the_one(entries, order);
    lemma_listed_before_strict(entries);
    let before = |left: int, right: int| listed_before(entries, left, right);
    let chosen = |k: int| 0 <= k < entries.len();
    assert(order.contains(k) <==> chosen(k));
    assert forall|a: int, b: int|
        0 <= a < order.len() && 0 <= b < order.len() && a != b implies order[a] != order[b] by {
        if a < b {
            assert(before(order[a], order[b]));
        } else {
            assert(before(order[b], order[a]));
        }
    }
    assert forall|i: int, j: int|
        0 <= i < j < order.len() && entries[#[trigger] order[i]].name
            == entries[#[trigger] order[j]].name implies order[i] < order[j] by {
        assert(before(order[i], order[j]));
        lemma_text_before_total(entries[order[i]].name, entries[order[j]].name);
    }
}

/// The list of the files is an object with one field, which tells of each file in the order of the
/// list.
pub proof fn a_list_tells_of_each_file(entries: Seq<EntryView>, listed: Seq<JsonView>)
    requires
        listed.len() == file_order(entries).len(),
        forall|i: int|
            0 <= i < listed.len() ==> #[trigger] listed[i] == JsonView::Object(
                entry_fields(entries[file_order(entries)[i]]),
            ),
    ensures
        files_reply(entries).status == "200 OK"@,
        files_reply(entries).content_type == "application/json"@,
        files_reply(entries).body == json_text(map!["files"@ => JsonView::List(listed)]),
{
    let told = file_order(entries).map_values(|k: int| entry_fields(entries[k]));
    assert(listed =~= told.map_values(
        |fields: Map<Seq<char>, JsonView>| JsonView::Object(fields),
    ));
}

/// The marker that Windows puts before canonical paths is taken off; any other path stays as it is.
pub proof fn a_path_loses_only_its_marker(path: Seq<char>)
    ensures
        plain_path(seq!['\\', '\\', '?', '\\'] + path) == path,
        !(path.len() >= 4 && path[0] == '\\' && path[1] == '\\' && path[2] == '?' && path[3]
            == '\\') ==> plain_path(path) == path,
{
    reveal_strlit("\\\\?\\");
    let marker = seq!['\\', '\\', '?', '\\'];
    assert("\\\\?\\"@ =~= marker);
    let marked = marker + path;
    assert(marked.subrange(0, 4) =~= marker);
    assert(marked.skip(4) =~= path);
    if starts_with(path, "\\\\?\\"@) {
        let start = path.subrange(0, 4);
        assert(start[0] == path[0] && start[1] == path[1] && start[2] == path[2] && start[3]
            == path[3]);
    }
}

/// Opening the folder is answered with its path where it went well, and with the error where it did
/// not.
pub proof fn an_opened_folder_is_named(path: Seq<char>, error: Seq<char>)
    ensures
        folder_reply(path, None).body == json_text(
            map!["status"@ => JsonView::Text("ok"@), "path"@ => JsonView::Text(path)],
        ),
        folder_reply(path, None).status == "200 OK"@,
        folder_reply(path, Some(error)).body == json_text(
            map![
                "status"@ => JsonView::Text("error"@),
                "message"@ => JsonView::Text("Could not open folder: "@ + error),
            ],
        ),
        folder_reply(path, Some(error)).status == "200 OK"@,
{
}

} // verus!
