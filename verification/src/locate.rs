//! Where the tools are looked for.

use crate::text::{push_text, views};
use vstd::prelude::*;

verus! {

/// The number of folders, from that of the program upward, in which the download tool is looked
/// for.
pub const SEARCH_DEPTH: u8 = 10;

/// The search for the download tool from the folder of the program upward.
pub struct ExeSearch {
    /// The folders that were looked into so far.
    pub looked: u8,
}

/// What to do next in a search.
#[derive(Clone, Copy, PartialEq, Eq, Structural)]
pub enum SearchStep {
    /// The tool is where it was looked for last.
    Found,
    /// Look one folder further up.
    Climb,
    /// The tool is nowhere.
    GiveUp,
}

/// The places under the working folder where the download tool is looked for, in their order.
pub open spec fn working_place_list() -> Seq<Seq<char>> {
    seq!["yt-dlp.exe"@, "ytdlp/yt-dlp.exe"@]
}

/// The places under the working folder where the download tool is looked for, in their order.
pub fn working_places() -> (places: Vec<String>)
    ensures
        views(places@) == seq!["yt-dlp.exe"@, "ytdlp/yt-dlp.exe"@],
        views(places@) == working_place_list(),
{
    let mut places: Vec<String> = Vec::new();
    push_text(&mut places, "yt-dlp.exe");
    push_text(&mut places, "ytdlp/yt-dlp.exe");
    assert(views(places@) =~= seq!["yt-dlp.exe"@, "ytdlp/yt-dlp.exe"@]);
    places
}

/// What to do next in a search, once `looked` folders were looked into: whether the last of them
/// has the tool, and whether there is a folder further up.
pub open spec fn step_after(looked: int, found: bool, has_parent: bool) -> SearchStep {
    if found {
        SearchStep::Found
    } else if has_parent && looked < SEARCH_DEPTH {
        SearchStep::Climb
    } else {
        SearchStep::GiveUp
    }
}

impl ExeSearch {
    /// The search goes on.
    pub open spec fn wf(&self) -> bool {
        self.looked < SEARCH_DEPTH
    }

    /// Whether the tool is found before the search begins: the working folder comes first.
    pub fn begin(in_working_folder: bool) -> (step: SearchStep)
        ensures
            step == SearchStep::Found <==> in_working_folder,
            step == SearchStep::Climb <==> !in_working_folder,
    {
        if in_working_folder {
            SearchStep::Found
        } else {
            SearchStep::Climb
        }
    }

    /// A search that begins.
    pub fn new() -> (search: Self)
        ensures
            search.wf(),
            search.looked == 0,
    {
        ExeSearch { looked: 0 }
    }

    /// Whether to go one level up before looking: a file is left for the folder that it is in.
    pub fn leaves_file(is_file: bool, has_parent: bool) -> (leaves: bool)
        ensures
            leaves == (is_file && has_parent),
    {
        is_file && has_parent
    }

    /// Takes up whether the tool was found and, if not, whether there is a folder further up.
    pub fn looked_at(&mut self, found: bool, has_parent: bool) -> (step: SearchStep)
        requires
            old(self).wf(),
        ensures
            final(self).looked == old(self).looked + 1,
            step == step_after(final(self).looked as int, found, has_parent),
            step == SearchStep::Climb ==> final(self).wf(),
    {
        self.looked = self.looked + 1;
        if found {
            SearchStep::Found
        } else if has_parent && self.looked < SEARCH_DEPTH {
            SearchStep::Climb
        } else {
            SearchStep::GiveUp
        }
    }
}

/// Where a search ends that has come to folder `at`. Of each folder, from that of the program
/// upward, is told whether it has the tool.
pub open spec fn search_from(folders: Seq<bool>, at: int) -> Option<int>
    decreases folders.len() - at,
{
    if at >= folders.len() {
        None
    } else {
        match step_after(at + 1, folders[at], at + 1 < folders.len()) {
            SearchStep::Found => Some(at),
            SearchStep::Climb => search_from(folders, at + 1),
            SearchStep::GiveUp => None,
        }
    }
}

/// A search ends at the first folder that has the tool, and finds nothing only where none of the
/// first ten has it.
pub proof fn search_ends_at_the_first_folder_with_the_tool(folders: Seq<bool>)
    ensures
        match search_from(folders, 0) {
            Some(at) => 0 <= at < folders.len() && at < 10 && folders[at] && forall|k: int|
                0 <= k < at ==> !#[trigger] folders[k],
            None => forall|k: int| 0 <= k < folders.len() && k < 10 ==> !#[trigger] folders[k],
        },
{
    lemma_search(folders, 0);
}

proof fn lemma_search(folders: Seq<bool>, from: int)
    requires
        0 <= from < 10,
    ensures
        match search_from(folders, from) {
            Some(at) => from <= at < folders.len() && at < 10 && folders[at] && forall|k: int|
                from <= k < at ==> !#[trigger] folders[k],
            None => forall|k: int| from <= k < folders.len() && k < 10 ==> !#[trigger] folders[k],
        },
    decreases folders.len() - from,
{
    if from < folders.len() && !folders[from] && from + 1 < folders.len() && from + 1 < 10 {
        lemma_search(folders, from + 1);
    }
}

/// A place where a tool is looked for.
pub struct ToolPlace {
    /// In the folder of the program; else in the working folder.
    pub beside_program: bool,
    pub name: String,
}

/// The places under one folder, one for each name.
pub open spec fn places_in(beside_program: bool, names: Seq<Seq<char>>) -> Seq<(bool, Seq<char>)> {
    names.map_values(|name: Seq<char>| (beside_program, name))
}

/// The places where a tool is looked for, in their order: the working folder first, then the
/// folder of the program, as far as each is known.
pub open spec fn places_of(
    names: Seq<Seq<char>>,
    working_known: bool,
    program_known: bool,
) -> Seq<(bool, Seq<char>)> {
    (if working_known {
        places_in(false, names)
    } else {
        Seq::empty()
    }) + (if program_known {
        places_in(true, names)
    } else {
        Seq::empty()
    })
}

/// The places of a list.
pub open spec fn place_views(places: Seq<ToolPlace>) -> Seq<(bool, Seq<char>)> {
    places.map_values(|place: ToolPlace| (place.beside_program, place.name@))
}

/// Appends the places under one folder.
fn push_places(places: &mut Vec<ToolPlace>, names: &Vec<String>, beside_program: bool)
    ensures
        place_views(final(places)@) == place_views(old(places)@) + places_in(
            beside_program,
            views(names@),
        ),
{
    let ghost added = places_in(beside_program, views(names@));
    let mut i: usize = 0;
    assert(place_views(places@) =~= place_views(old(places)@) + added.take(0));
    while i < names.len()
        invariant
            i <= names.len(),
            added == places_in(beside_program, views(names@)),
            place_views(places@) == place_views(old(places)@) + added.take(i as int),
        decreases names.len() - i,
    {
        let ghost before = place_views(places@);
        let place = ToolPlace { beside_program, name: names[i].clone() };
        places.push(place);
        assert(place_views(places@) =~= before.push((beside_program, names@[i as int]@)));
        i = i + 1;
        assert(place_views(places@) =~= place_views(old(places)@) + added.take(i as int));
    }
    assert(added.take(i as int) =~= added);
}

/// The places where a tool is looked for, in their order.
pub fn tool_places(names: &Vec<String>, working_known: bool, program_known: bool) -> (places: Vec<
    ToolPlace,
>)
    ensures
        place_views(places@) == places_of(views(names@), working_known, program_known),
{
    let mut places: Vec<ToolPlace> = Vec::new();
    assert(place_views(places@) =~= Seq::empty());
    if working_known {
        push_places(&mut places, names, false);
        assert(place_views(places@) =~= places_in(false, views(names@)));
    }
    if program_known {
        push_places(&mut places, names, true);
    }
    assert(place_views(places@) =~= places_of(views(names@), working_known, program_known));
    places
}

/// The first index not below `from` that holds true.
pub open spec fn first_true(hits: Seq<bool>, from: int) -> Option<int>
    decreases hits.len() - from,
{
    if from >= hits.len() {
        None
    } else if hits[from] {
        Some(from)
    } else {
        first_true(hits, from + 1)
    }
}

/// The first place that holds the tool.
pub fn first_hit(hits: &Vec<bool>) -> (found: Option<usize>)
    ensures
        match found {
            Some(at) => at < hits.len() && hits@[at as int] && forall|k: int|
                0 <= k < at ==> !#[trigger] hits@[k],
            None => forall|k: int| 0 <= k < hits.len() ==> !#[trigger] hits@[k],
        },
        first_true(hits@, 0) == (match found {
            Some(at) => Some(at as int),
            None => None,
        }),
{
    proof {
        the_first_place_with_the_tool_is_taken(hits@, 0);
    }
    let mut i: usize = 0;
    while i < hits.len()
        invariant
            i <= hits.len(),
            forall|k: int| 0 <= k < i ==> !#[trigger] hits@[k],
        decreases hits.len() - i,
    {
        if hits[i] {
            proof {
                the_first_place_with_the_tool_is_taken(hits@, 0);
            }
            return Some(i);
        }
        i = i + 1;
    }
    None
}

/// The names that a tool goes by.
pub open spec fn names_of_tool(tool: Seq<char>) -> Seq<Seq<char>> {
    seq![tool + ".exe"@, tool]
}

/// The names that a tool goes by.
pub fn tool_names(tool: &str) -> (names: Vec<String>)
    ensures
        views(names@) == seq![tool@ + ".exe"@, tool@],
        views(names@) == names_of_tool(tool@),
{
    let mut names: Vec<String> = Vec::new();
    let mut windows_name = tool.to_owned();
    windows_name.append(".exe");
    names.push(windows_name);
    names.push(tool.to_owned());
    assert(views(names@) =~= seq![tool@ + ".exe"@, tool@]);
    names
}

/// A tool is looked for under every name in the working folder first, then under every name in the
/// folder of the program; a folder that is not known is left out.
pub proof fn the_working_folder_comes_first(names: Seq<Seq<char>>, k: int)
    requires
        0 <= k < names.len(),
    ensures
        places_of(names, true, true).len() == 2 * names.len(),
        places_of(names, true, true)[k] == (false, names[k]),
        places_of(names, true, true)[names.len() + k] == (true, names[k]),
        places_of(names, true, false).len() == names.len(),
        places_of(names, true, false)[k] == (false, names[k]),
        places_of(names, false, true).len() == names.len(),
        places_of(names, false, true)[k] == (true, names[k]),
        places_of(names, false, false).len() == 0,
{
}

/// A search ends at once where the tool is found; else it goes on as long as there is a folder
/// further up and fewer than ten were looked into.
pub proof fn a_search_climbs_ten_folders(looked: int, has_parent: bool)
    ensures
        step_after(looked, true, has_parent) == SearchStep::Found,
        step_after(looked, false, has_parent) == SearchStep::Climb <==> has_parent && looked < 10,
        step_after(looked, false, has_parent) == SearchStep::GiveUp <==> !has_parent || looked >= 10,
{
}

/// The download tool is looked for in the working folder and, after that, in the folder of its own
/// under it, and nowhere else there. Any tool goes by its name on Windows first, then by its bare
/// name.
pub proof fn tools_go_by_two_names(tool: Seq<char>)
    ensures
        working_place_list().len() == 2,
        working_place_list()[0] == "yt-dlp.exe"@,
        working_place_list()[1] == "ytdlp/"@ + working_place_list()[0],
        names_of_tool(tool).len() == 2,
        names_of_tool(tool)[0] == tool + ".exe"@,
        names_of_tool(tool)[1] == tool,
{
    reveal_strlit("yt-dlp.exe");
    reveal_strlit("ytdlp/");
    reveal_strlit("ytdlp/yt-dlp.exe");
    assert("ytdlp/yt-dlp.exe"@ =~= "ytdlp/"@ + "yt-dlp.exe"@);
}

/// Of several places that hold a tool the first is taken, and there is none only where no place
/// holds it.
pub proof fn the_first_place_with_the_tool_is_taken(hits: Seq<bool>, from: int)
    requires
        0 <= from,
    ensures
        match first_true(hits, from) {
            Some(at) => from <= at < hits.len() && hits[at] && forall|k: int|
                from <= k < at ==> !#[trigger] hits[k],
            None => forall|k: int| from <= k < hits.len() ==> !#[trigger] hits[k],
        },
    decreases hits.len() - from,
{
    if from < hits.len() && !hits[from] {
        the_first_place_with_the_tool_is_taken(hits, from + 1);
    }
}

} // verus!
