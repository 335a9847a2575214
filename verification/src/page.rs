//! The page that the server shows: a video with its formats, and the file explorer.

use crate::cards::{empty_list_text, format_list_text, render_format_list_empty};
use crate::cards::render_format_list_streams;
use crate::form::{find_first_value, first_value, lemma_first_value, lemma_no_first_value};
use crate::form::{parse_query, query_pairs};
use crate::formats::{stream_views, StreamInfo, StreamView};
use crate::html::{escaped, html_escape};
use crate::http::{html_reply, page_reply, Response};
use crate::numbers::{duration_text, format_duration, format_number, number_text};
use crate::text::{contains_text, ends_with, is_space, lemma_item, lemma_last_three, lemma_last_two};
use crate::text::{lemma_parts_stand, lemma_stands_inside, lemma_still_stands, lemma_written_starts};
use crate::text::{matches_at, optional, replace_all, written};
use crate::text::{replace_text, replacing_goes_on_behind_the_first_place, starts_with, trim_text};
use crate::text::{trimmed, trimming_takes_off_white_space, two_texts};
use vstd::prelude::*;

verus! {

/// A picture that announces a video.
pub struct Thumbnail {
    pub width: u64,
    pub height: u64,
    pub url: String,
}

/// What is known of a video.
pub struct VideoDetails {
    pub video_id: String,
    pub video_url: String,
    pub title: String,
    /// How long it is, in seconds.
    pub length_seconds: String,
    pub view_count: String,
    pub publish_date: String,
    /// The name of its author.
    pub author: Option<String>,
    pub owner_channel_name: String,
    pub thumbnails: Vec<Thumbnail>,
}

/// A picture that announces a video.
#[verifier::ext_equal]
pub struct ThumbnailView {
    pub width: u64,
    pub height: u64,
    pub url: Seq<char>,
}

/// What is known of a video.
#[verifier::ext_equal]
pub struct DetailsView {
    pub video_id: Seq<char>,
    pub video_url: Seq<char>,
    pub title: Seq<char>,
    pub length_seconds: Seq<char>,
    pub view_count: Seq<char>,
    pub publish_date: Seq<char>,
    pub author: Option<Seq<char>>,
    pub owner_channel_name: Seq<char>,
    pub thumbnails: Seq<ThumbnailView>,
}

impl View for Thumbnail {
    type V = ThumbnailView;

    open spec fn view(&self) -> ThumbnailView {
        ThumbnailView { width: self.width, height: self.height, url: self.url@ }
    }
}

/// Each picture of a list.
pub open spec fn thumbnail_views(thumbnails: Seq<Thumbnail>) -> Seq<ThumbnailView> {
    thumbnails.map_values(|thumbnail: Thumbnail| thumbnail@)
}

impl View for VideoDetails {
    type V = DetailsView;

    open spec fn view(&self) -> DetailsView {
        DetailsView {
            video_id: self.video_id@,
            video_url: self.video_url@,
            title: self.title@,
            length_seconds: self.length_seconds@,
            view_count: self.view_count@,
            publish_date: self.publish_date@,
            author: optional(self.author),
            owner_channel_name: self.owner_channel_name@,
            thumbnails: thumbnail_views(self.thumbnails@),
        }
    }
}

/// The area of a picture, as far as 64 bits can tell it.
pub open spec fn area(thumbnail: ThumbnailView) -> int {
    if thumbnail.width * thumbnail.height > u64::MAX {
        u64::MAX as int
    } else {
        thumbnail.width * thumbnail.height
    }
}

/// Picture `k` is the largest, and the last of those.
pub open spec fn is_best_thumbnail(thumbnails: Seq<ThumbnailView>, k: int) -> bool {
    &&& 0 <= k < thumbnails.len()
    &&& forall|j: int|
        0 <= j < thumbnails.len() ==> area(#[trigger] thumbnails[j]) < area(thumbnails[k]) || (area(
            thumbnails[j],
        ) == area(thumbnails[k]) && j <= k)
}

/// The address of the largest picture, if there is one and it has an address.
pub open spec fn best_address(thumbnails: Seq<ThumbnailView>) -> Option<Seq<char>> {
    let best = choose|k: int| is_best_thumbnail(thumbnails, k);
    if thumbnails.len() == 0 || thumbnails[best].url.len() == 0 {
        None
    } else {
        Some(thumbnails[best].url)
    }
}

/// The area of a picture.
fn area_of(thumbnail: &Thumbnail) -> (size: u64)
    ensures
        size == area(thumbnail@),
{
    let width = thumbnail.width as u128;
    let height = thumbnail.height as u128;
    assert(width * height <= 0xffff_ffff_ffff_ffff * 0xffff_ffff_ffff_ffff) by (nonlinear_arith)
        requires
            width <= 0xffff_ffff_ffff_ffff,
            height <= 0xffff_ffff_ffff_ffff,
    ;
    let product: u128 = width * height;
    if product > 0xffff_ffff_ffff_ffff {
        0xffff_ffff_ffff_ffff
    } else {
        product as u64
    }
}

/// The largest picture of a video, the last where several are.
pub fn select_best_thumbnail(d: &VideoDetails) -> (found: Option<usize>)
    ensures
        match found {
            Some(k) => is_best_thumbnail(d@.thumbnails, k as int),
            None => d@.thumbnails.len() == 0,
        },
{
    let ghost all = d@.thumbnails;
    if d.thumbnails.len() == 0 {
        return None;
    }
    let mut best: usize = 0;
    let mut i: usize = 1;
    while i < d.thumbnails.len()
        invariant
            1 <= i <= d.thumbnails.len(),
            best < i,
            all == thumbnail_views(d.thumbnails@),
            forall|j: int|
                0 <= j < i ==> area(#[trigger] all[j]) < area(all[best as int]) || (area(all[j])
                    == area(all[best as int]) && j <= best),
        decreases d.thumbnails.len() - i,
    {
        assert(all[i as int] == d.thumbnails@[i as int]@);
        assert(all[best as int] == d.thumbnails@[best as int]@);
        if area_of(&d.thumbnails[i]) >= area_of(&d.thumbnails[best]) {
            best = i;
        }
        i = i + 1;
    }
    Some(best)
}

/// The picture above a video, linked to it; nothing where there is no address.
pub open spec fn thumbnail_text(address: Option<Seq<char>>, video_url: Seq<char>) -> Seq<char> {
    match address {
        Some(url) => "<div><a href=\""@ + escaped(video_url)
            + "\" target=\"_blank\" rel=\"noopener\"><img src=\""@ + escaped(url)
            + "\" alt=\"Thumbnail\" loading=\"lazy\" /></a></div>"@,
        None => Seq::empty(),
    }
}

/// Whose a video is: the name of its author, else that of the channel.
pub open spec fn channel_text(details: DetailsView) -> Seq<char> {
    if details.author is Some && details.author->0.len() > 0 {
        details.author->0
    } else {
        details.owner_channel_name
    }
}

/// A video with its formats.
pub open spec fn video_text(
    details: DetailsView,
    formats: Option<Seq<StreamView>>,
    formats_error: Option<Seq<char>>,
) -> Seq<char> {
    let format_text = match formats {
        Some(streams) => format_list_text(streams, details.video_url, details.video_id),
        None => empty_list_text(formats_error),
    };
    "<div class=\"card\"><div class=\"card-head\">"@ + thumbnail_text(
        best_address(details.thumbnails),
        details.video_url,
    ) + "<div class=\"meta\"><h2><a href=\""@ + escaped(details.video_url)
        + "\" target=\"_blank\" rel=\"noopener\">"@ + escaped(details.title)
        + "</a></h2><div class=\"stats\"><span>👤 "@ + escaped(channel_text(details))
        + "</span><span>⏱ "@ + duration_text(details.length_seconds) + "</span><span>👁 "@
        + number_text(details.view_count) + " views</span><span>📅 "@ + escaped(
        details.publish_date,
    ) + "</span></div></div></div><div class=\"links\">"@ + format_text + "</div></div>"@
}

/// What each stream of an optional list says.
pub open spec fn optional_streams(streams: Option<Vec<StreamInfo>>) -> Option<Seq<StreamView>> {
    match streams {
        Some(list) => Some(stream_views(list@)),
        None => None,
    }
}

/// The picture above a video.
fn render_thumbnail(info: &VideoDetails) -> (text: String)
    ensures
        text@ == thumbnail_text(best_address(info@.thumbnails), info@.video_url),
{
    let ghost all = info@.thumbnails;
    match select_best_thumbnail(info) {
        Some(k) => {
            let url = info.thumbnails[k].url.as_str();
            proof {
                let best = choose|k: int| is_best_thumbnail(all, k);
                assert(is_best_thumbnail(all, k as int));
                assert(area(all[best]) <= area(all[k as int]));
                assert(area(all[k as int]) <= area(all[best]));
                assert(best == k);
                assert(all[k as int] == info.thumbnails@[k as int]@);
            }
            if url.is_empty() {
                return String::new();
            }
            let video_url = html_escape(info.video_url.as_str());
            let address = html_escape(url);
            let mut text = two_texts("<div><a href=\"", video_url.as_str());
            text.append("\" target=\"_blank\" rel=\"noopener\"><img src=\"");
            text.append(address.as_str());
            text.append("\" alt=\"Thumbnail\" loading=\"lazy\" /></a></div>");
            text
        },
        None => String::new(),
    }
}

/// A video with its formats, or with what stands in their place.
pub fn render_video_info(
    info: &VideoDetails,
    formats: &Option<Vec<StreamInfo>>,
    formats_error: &Option<String>,
) -> (text: String)
    ensures
        text@ == video_text(info@, optional_streams(*formats), optional(*formats_error)),
{
    let video_url = html_escape(info.video_url.as_str());
    let title = html_escape(info.title.as_str());
    let duration = format_duration(info.length_seconds.as_str());
    let views = format_number(info.view_count.as_str());
    let publish_date = html_escape(info.publish_date.as_str());
    let channel = match &info.author {
        Some(name) => if name.as_str().is_empty() {
            html_escape(info.owner_channel_name.as_str())
        } else {
            html_escape(name.as_str())
        },
        None => html_escape(info.owner_channel_name.as_str()),
    };
    let format_text = match formats {
        Some(streams) => render_format_list_streams(
            streams,
            info.video_url.as_str(),
            info.video_id.as_str(),
        ),
        None => render_format_list_empty(formats_error),
    };
    let thumbnail = render_thumbnail(info);
    let mut text = "<div class=\"card\"><div class=\"card-head\">".to_owned();
    text.append(thumbnail.as_str());
    text.append("<div class=\"meta\"><h2><a href=\"");
    text.append(video_url.as_str());
    text.append("\" target=\"_blank\" rel=\"noopener\">");
    text.append(title.as_str());
    text.append("</a></h2><div class=\"stats\"><span>👤 ");
    text.append(channel.as_str());
    text.append("</span><span>⏱ ");
    text.append(duration.as_str());
    text.append("</span><span>👁 ");
    text.append(views.as_str());
    text.append(" views</span><span>📅 ");
    text.append(publish_date.as_str());
    text.append("</span></div></div></div><div class=\"links\">");
    text.append(format_text.as_str());
    text.append("</div></div>");
    text
}

/// The file explorer, which stands under everything else.
pub const EXPLORER_HTML: &'static str = "<div class=\"explorer\" id=\"explorer\">
    <div class=\"explorer-head\">
        <h3 id=\"open-folder\" title=\"Open this folder in your file explorer\" role=\"button\" tabindex=\"0\">📂 downloaded/</h3>
        <div class=\"explorer-actions\">
            <button type=\"button\" id=\"refresh-files\" class=\"btn-secondary\">Refresh</button>
            <button type=\"button\" id=\"mp3-btn\" disabled>&rarr; MP3</button>
            <button type=\"button\" id=\"merge-btn\" disabled>Merge &rarr; MP4 (phones)</button>
        </div>
    </div>
    <div class=\"explorer-status\" id=\"explorer-status\"></div>
    <div class=\"file-list\" id=\"file-list\"></div>
</div>";

/// What a page shows.
pub struct PageContent {
    /// What was asked for.
    pub input: String,
    pub video: Option<VideoDetails>,
    pub error: Option<String>,
    pub formats: Option<Vec<StreamInfo>>,
    /// Why there are no formats.
    pub formats_error: Option<String>,
}

/// What a page shows.
#[verifier::ext_equal]
pub struct ContentView {
    pub input: Seq<char>,
    pub video: Option<DetailsView>,
    pub error: Option<Seq<char>>,
    pub formats: Option<Seq<StreamView>>,
    pub formats_error: Option<Seq<char>>,
}

impl View for PageContent {
    type V = ContentView;

    open spec fn view(&self) -> ContentView {
        ContentView {
            input: self.input@,
            video: match self.video {
                Some(details) => Some(details@),
                None => None,
            },
            error: optional(self.error),
            formats: optional_streams(self.formats),
            formats_error: optional(self.formats_error),
        }
    }
}

/// A page that shows an error and nothing else.
pub open spec fn error_content(message: Seq<char>) -> ContentView {
    ContentView {
        input: Seq::empty(),
        video: None,
        error: Some(message),
        formats: None,
        formats_error: None,
    }
}

/// The part of a page that depends on what was found: the error, the video or a hint in its place,
/// the file explorer.
pub open spec fn result_text(content: ContentView) -> Seq<char> {
    let alert = match content.error {
        Some(message) => "<div class=\"alert error\">⚠️ "@ + escaped(message) + "</div>"@,
        None => Seq::empty(),
    };
    let body = match content.video {
        Some(details) => video_text(details, content.formats, content.formats_error),
        None =>
            "<div class=\"placeholder\">Paste a YouTube URL or 11-character video ID above and click “Check video”.</div>"@,
    };
    alert + body + EXPLORER_HTML@
}

/// A page: a template with what was asked for and what was found filled in.
pub open spec fn page_text(template: Seq<char>, content: ContentView) -> Seq<char> {
    replace_text(
        replace_text(template, "{{ESCAPED_INPUT}}"@, escaped(content.input)),
        "{{RESULT_SECTION}}"@,
        result_text(content),
    )
}

/// The page with the given content.
pub fn render_page(template: &str, content: &PageContent) -> (page: String)
    ensures
        page@ == page_text(template@, content@),
{
    let input = html_escape(content.input.as_str());
    let mut result = String::new();
    if let Some(message) = &content.error {
        let shown = html_escape(message.as_str());
        result.append("<div class=\"alert error\">⚠️ ");
        result.append(shown.as_str());
        result.append("</div>");
    }
    let ghost alert = result@;
    match &content.video {
        Some(details) => {
            let video = render_video_info(details, &content.formats, &content.formats_error);
            result.append(video.as_str());
        },
        None => {
            result.append(
                "<div class=\"placeholder\">Paste a YouTube URL or 11-character video ID above and click “Check video”.</div>",
            );
        },
    }
    result.append(EXPLORER_HTML);
    assert(result@ =~= result_text(content@));
    proof {
        reveal_strlit("{{ESCAPED_INPUT}}");
        reveal_strlit("{{RESULT_SECTION}}");
        assert("{{ESCAPED_INPUT}}"@.len() == 17);
        assert("{{RESULT_SECTION}}"@.len() == 18);
    }
    let with_input = replace_all(template, "{{ESCAPED_INPUT}}", input.as_str());
    replace_all(with_input.as_str(), "{{RESULT_SECTION}}", result.as_str())
}

/// What a query asks to see: the first address in it, without the white space round it.
pub open spec fn asked_input(query: Option<Seq<char>>) -> Seq<char> {
    match query {
        Some(text) => match first_value(query_pairs(text), "url"@) {
            Some(value) => trimmed(value),
            None => Seq::empty(),
        },
        None => Seq::empty(),
    }
}

/// A query asks for a video.
pub open spec fn asks_for_video(query: Option<Seq<char>>) -> bool {
    query is Some && asked_input(query).len() > 0
}

/// The content of a page before anything was looked up.
pub open spec fn first_content(query: Option<Seq<char>>) -> ContentView {
    ContentView {
        input: asked_input(query),
        video: None,
        error: if query is Some && asked_input(query).len() == 0 {
            Some("Please enter a video URL or ID."@)
        } else {
            None
        },
        formats: None,
        formats_error: None,
    }
}

/// The content of a page, and whether a video is to be looked up for it.
pub fn start_page(query: &Option<String>) -> (started: (PageContent, bool))
    ensures
        started.0@ == first_content(optional(*query)),
        started.1 == asks_for_video(optional(*query)),
{
    let input = match query {
        Some(text) => {
            let pairs = parse_query(text.as_str());
            match find_first_value(&pairs, "url") {
                Some(value) => trim_text(value.as_str()),
                None => String::new(),
            }
        },
        None => String::new(),
    };
    assert(input@ =~= asked_input(optional(*query)));
    let empty = input.as_str().is_empty();
    let error = if query.is_some() && empty {
        Some("Please enter a video URL or ID.".to_owned())
    } else {
        None
    };
    let content = PageContent { input, video: None, error, formats: None, formats_error: None };
    (content, query.is_some() && !empty)
}

/// The content of a page once its video was looked up.
pub open spec fn informed(content: ContentView, found: Result<DetailsView, Seq<char>>) -> ContentView {
    match found {
        Ok(details) => ContentView { video: Some(details), ..content },
        Err(error) => ContentView {
            error: Some("Unable to fetch info: "@ + error),
            ..content
        },
    }
}

/// The content of a page once the formats of its video were listed.
pub open spec fn listed(
    content: ContentView,
    found: Result<Seq<StreamView>, Seq<char>>,
) -> ContentView {
    match found {
        Ok(streams) => ContentView { formats: Some(streams), formats_error: None, ..content },
        Err(error) => ContentView { formats: None, formats_error: Some(error), ..content },
    }
}

impl PageContent {
    /// Takes in what the look-up of the video brought. Its formats are to be listed if it was
    /// found.
    pub fn take_info(&mut self, outcome: Result<VideoDetails, String>) -> (list_formats: bool)
        ensures
            list_formats == (outcome is Ok),
            final(self)@ == (match outcome {
                Ok(details) => ContentView { video: Some(details@), ..old(self)@ },
                Err(error) => ContentView {
                    error: Some("Unable to fetch info: "@ + error@),
                    ..old(self)@
                },
            }),
            final(self)@ == informed(
                old(self)@,
                match outcome {
                    Ok(details) => Ok(details@),
                    Err(error) => Err(error@),
                },
            ),
    {
        match outcome {
            Ok(details) => {
                self.video = Some(details);
                true
            },
            Err(error) => {
                self.error = Some(two_texts("Unable to fetch info: ", error.as_str()));
                false
            },
        }
    }

    /// Takes in what listing the formats of the video brought.
    pub fn take_formats(&mut self, outcome: Result<Vec<StreamInfo>, String>)
        ensures
            final(self)@ == (match outcome {
                Ok(streams) => ContentView {
                    formats: Some(stream_views(streams@)),
                    formats_error: None,
                    ..old(self)@
                },
                Err(error) => ContentView {
                    formats: None,
                    formats_error: Some(error@),
                    ..old(self)@
                },
            }),
            final(self)@ == listed(
                old(self)@,
                match outcome {
                    Ok(streams) => Ok(stream_views(streams@)),
                    Err(error) => Err(error@),
                },
            ),
    {
        match outcome {
            Ok(streams) => {
                self.formats = Some(streams);
                self.formats_error = None;
            },
            Err(error) => {
                self.formats = None;
                self.formats_error = Some(error);
            },
        }
    }
}

/// The answer to a request for a page.
pub fn page_response(template: &str, content: &PageContent) -> (reply: Response)
    ensures
        reply@ == page_reply("200 OK"@, page_text(template@, content@)),
{
    let page = render_page(template, content);
    html_reply("200 OK", page)
}

/// A page that shows an error and nothing else.
fn render_error(template: &str, message: &str) -> (page: String)
    ensures
        page@ == page_text(template@, error_content(message@)),
{
    let content = PageContent {
        input: String::new(),
        video: None,
        error: Some(message.to_owned()),
        formats: None,
        formats_error: None,
    };
    assert(content@ =~= error_content(message@));
    render_page(template, &content)
}

/// The answer to a request with a method that the server does not take.
pub fn method_refused(template: &str) -> (reply: Response)
    ensures
        reply@ == page_reply(
            "405 Method Not Allowed"@,
            page_text(template@, error_content("Only GET allowed."@)),
        ),
{
    let page = render_error(template, "Only GET allowed.");
    html_reply("405 Method Not Allowed", page)
}

/// The answer to a request for a path under which there is nothing.
pub fn page_missing(template: &str) -> (reply: Response)
    ensures
        reply@ == page_reply(
            "404 Not Found"@,
            page_text(template@, error_content("Not found."@)),
        ),
{
    let page = render_error(template, "Not found.");
    html_reply("404 Not Found", page)
}

/// There is one largest picture, the last of those with its area, unless there is none at all.
pub proof fn best_thumbnail_is_the_one(thumbnails: Seq<ThumbnailView>)
    requires
        thumbnails.len() > 0,
    ensures
        exists|k: int| is_best_thumbnail(thumbnails, k),
        forall|k: int, l: int|
            is_best_thumbnail(thumbnails, k) && is_best_thumbnail(thumbnails, l) ==> k == l,
{
    let best = lemma_best_thumbnail(thumbnails, 1, 0);
    assert(is_best_thumbnail(thumbnails, best));
    assert forall|k: int, l: int|
        is_best_thumbnail(thumbnails, k) && is_best_thumbnail(thumbnails, l) implies k == l by {
        assert(area(thumbnails[k]) <= area(thumbnails[l]));
        assert(area(thumbnails[l]) <= area(thumbnails[k]));
    }
}

proof fn lemma_best_thumbnail(thumbnails: Seq<ThumbnailView>, from: int, best: int) -> (found: int)
    requires
        0 <= best < from <= thumbnails.len(),
        forall|j: int|
            0 <= j < from ==> area(#[trigger] thumbnails[j]) < area(thumbnails[best]) || (area(
                thumbnails[j],
            ) == area(thumbnails[best]) && j <= best),
    ensures
        is_best_thumbnail(thumbnails, found),
    decreases thumbnails.len() - from,
{
    if from == thumbnails.len() {
        best
    } else if area(thumbnails[from]) >= area(thumbnails[best]) {
        lemma_best_thumbnail(thumbnails, from + 1, from)
    } else {
        lemma_best_thumbnail(thumbnails, from + 1, best)
    }
}

/// The file explorer stands at the end of what every page shows.
pub proof fn explorer_is_on_every_page(content: ContentView)
    ensures
        ends_with(result_text(content), EXPLORER_HTML@),
{
    let text = result_text(content);
    assert(text.subrange(text.len() - EXPLORER_HTML@.len(), text.len() as int) =~= EXPLORER_HTML@);
}

/// The picture of a video is the largest by the product of its sides, as far as 64 bits can tell,
/// and the last of several that are equal; where that one has no address, there is none.
pub proof fn the_largest_picture_is_shown(thumbnails: Seq<ThumbnailView>, k: int)
    requires
        0 <= k < thumbnails.len(),
        forall|j: int|
            0 <= j < thumbnails.len() && (#[trigger] thumbnails[j]).width * thumbnails[j].height
                < u64::MAX ==> thumbnails[j].width * thumbnails[j].height < thumbnails[k].width
                * thumbnails[k].height || (thumbnails[j].width * thumbnails[j].height
                == thumbnails[k].width * thumbnails[k].height && j <= k),
        forall|j: int|
            0 <= j < thumbnails.len() && (#[trigger] thumbnails[j]).width * thumbnails[j].height
                >= u64::MAX ==> thumbnails[k].width * thumbnails[k].height >= u64::MAX && j <= k,
    ensures
        best_address(thumbnails) == (if thumbnails[k].url.len() > 0 {
            Some(thumbnails[k].url)
        } else {
            None
        }),
        best_address(Seq::empty()) is None,
{
    assert(is_best_thumbnail(thumbnails, k));
    best_thumbnail_is_the_one(thumbnails);
}

/// A picture is shown from its own address and links to its video; without an address nothing is
/// shown.
pub proof fn a_picture_links_to_its_video(url: Seq<char>, video_url: Seq<char>)
    ensures
        contains_text(
            thumbnail_text(Some(url), video_url),
            "<a href=\""@ + escaped(video_url) + "\" target=\"_blank\" rel=\"noopener\">"@,
        ),
        contains_text(
            thumbnail_text(Some(url), video_url),
            "<img src=\""@ + escaped(url) + "\" alt=\"Thumbnail\" loading=\"lazy\" />"@,
        ),
        thumbnail_text(None, video_url).len() == 0,
{
    let link = "<a href=\""@;
    let open = "\" target=\"_blank\" rel=\"noopener\">"@;
    let picture = "<img src=\""@;
    let close = "\" alt=\"Thumbnail\" loading=\"lazy\" />"@;
    let end = "</a></div>"@;
    assert("<div><a href=\""@ =~= "<div>"@ + link) by {
        reveal_strlit("<div><a href=\"");
        reveal_strlit("<div>");
        reveal_strlit("<a href=\"");
    }
    assert("\" target=\"_blank\" rel=\"noopener\"><img src=\""@ =~= open + picture) by {
        reveal_strlit("\" target=\"_blank\" rel=\"noopener\"><img src=\"");
        reveal_strlit("\" target=\"_blank\" rel=\"noopener\">");
        reveal_strlit("<img src=\"");
    }
    assert("\" alt=\"Thumbnail\" loading=\"lazy\" /></a></div>"@ =~= close + end) by {
        reveal_strlit("\" alt=\"Thumbnail\" loading=\"lazy\" /></a></div>");
        reveal_strlit("\" alt=\"Thumbnail\" loading=\"lazy\" />");
        reveal_strlit("</a></div>");
    }
    let none = Seq::<char>::empty();
    assert(open + none =~= open);
    assert(close + none =~= close);
    let front = "<div>"@;
    let one = front + (link + escaped(video_url) + open) + none;
    let two = one + (picture + escaped(url) + close) + none;
    lemma_item(front, link, escaped(video_url), open, none, picture);
    lemma_item(one, picture, escaped(url), close, none, end);
    assert(thumbnail_text(Some(url), video_url) == two + end);
    lemma_stands_inside(front, link + escaped(video_url) + open, none);
    lemma_stands_inside(one, picture + escaped(url) + close, none);
    lemma_still_stands(
        one,
        picture + escaped(url) + close + none,
        link + escaped(video_url) + open,
    );
    assert(one + (picture + escaped(url) + close + none) =~= two);
    lemma_still_stands(two, end, link + escaped(video_url) + open);
    lemma_still_stands(two, end, picture + escaped(url) + close);
}

/// A video is said to be its author's; the channel is named only where no author is.
pub proof fn a_video_is_its_authors(details: DetailsView, author: Seq<char>)
    ensures
        details.author == Some(author) && author.len() > 0 ==> channel_text(details) == author,
        details.author == Some(author) && author.len() == 0 ==> channel_text(details)
            == details.owner_channel_name,
        details.author is None ==> channel_text(details) == details.owner_channel_name,
{
}

/// What is shown of a video: its picture first, then its title, linked to it, whose it is, how long
/// it is, how often it was seen, when it was published, and its formats, or what stands in their
/// place.
pub proof fn a_video_is_shown_with_all_that_is_known(
    details: DetailsView,
    formats: Option<Seq<StreamView>>,
    error: Option<Seq<char>>,
)
    ensures
        ({
            let text = video_text(details, formats, error);
            &&& starts_with(
                text,
                "<div class=\"card\"><div class=\"card-head\">"@ + thumbnail_text(
                    best_address(details.thumbnails),
                    details.video_url,
                ),
            )
            &&& contains_text(
                text,
                "<h2><a href=\""@ + escaped(details.video_url)
                    + "\" target=\"_blank\" rel=\"noopener\">"@,
            )
            &&& contains_text(
                text,
                "\" target=\"_blank\" rel=\"noopener\">"@ + escaped(details.title)
                    + "</a></h2>"@,
            )
            &&& contains_text(text, "<span>👤 "@ + escaped(channel_text(details)) + "</span>"@)
            &&& contains_text(
                text,
                "<span>⏱ "@ + duration_text(details.length_seconds) + "</span>"@,
            )
            &&& contains_text(
                text,
                "<span>👁 "@ + number_text(details.view_count) + " views</span>"@,
            )
            &&& contains_text(text, "<span>📅 "@ + escaped(details.publish_date) + "</span>"@)
            &&& formats matches Some(streams) ==> contains_text(
                text,
                "<div class=\"links\">"@ + format_list_text(
                    streams,
                    details.video_url,
                    details.video_id,
                ) + "</div>"@,
            )
            &&& formats is None ==> contains_text(
                text,
                "<div class=\"links\">"@ + empty_list_text(error) + "</div>"@,
            )
        }),
{
    lemma_video_literals();
    let format_text = match formats {
        Some(streams) => format_list_text(streams, details.video_url, details.video_id),
        None => empty_list_text(error),
    };
    let parts = seq![
        "<div class=\"card\"><div class=\"card-head\">"@,
        thumbnail_text(best_address(details.thumbnails), details.video_url),
        "<div class=\"meta\">"@,
        "<h2><a href=\""@,
        escaped(details.video_url),
        "\" target=\"_blank\" rel=\"noopener\">"@,
        escaped(details.title),
        "</a></h2>"@,
        "<div class=\"stats\">"@,
        "<span>👤 "@,
        escaped(channel_text(details)),
        "</span>"@,
        "<span>⏱ "@,
        duration_text(details.length_seconds),
        "</span>"@,
        "<span>👁 "@,
        number_text(details.view_count),
        " views</span>"@,
        "<span>📅 "@,
        escaped(details.publish_date),
        "</span>"@,
        "</div></div></div>"@,
        "<div class=\"links\">"@,
        format_text,
        "</div>"@,
        "</div>"@,
    ];
    lemma_video_is_written(details, format_text, parts);
    assert(video_text(details, formats, error) == written(parts, 26));
    lemma_parts_stand(parts, 3, 26);
    lemma_parts_stand(parts, 5, 26);
    lemma_parts_stand(parts, 9, 26);
    lemma_parts_stand(parts, 12, 26);
    lemma_parts_stand(parts, 15, 26);
    lemma_parts_stand(parts, 18, 26);
    lemma_parts_stand(parts, 22, 26);
    lemma_written_starts(parts, 2, 26);
    assert(written(parts, 2) =~= parts[0] + parts[1]) by {
        reveal_with_fuel(written, 3);
    }
}

/// The parts of a video, one after the other.
proof fn lemma_video_is_written(
    details: DetailsView,
    format_text: Seq<char>,
    parts: Seq<Seq<char>>,
)
    requires
        parts.len() == 26,
        parts[2] + parts[3] == "<div class=\"meta\"><h2><a href=\""@,
        parts[7] + parts[8] + parts[9] == "</a></h2><div class=\"stats\"><span>👤 "@,
        parts[11] + parts[12] == "</span><span>⏱ "@,
        parts[14] + parts[15] == "</span><span>👁 "@,
        parts[17] + parts[18] == " views</span><span>📅 "@,
        parts[20] + parts[21] + parts[22]
            == "</span></div></div></div><div class=\"links\">"@,
        parts[24] + parts[25] == "</div></div>"@,
    ensures
        parts[0] + parts[1] + "<div class=\"meta\"><h2><a href=\""@ + parts[4] + parts[5]
            + parts[6] + "</a></h2><div class=\"stats\"><span>👤 "@ + parts[10]
            + "</span><span>⏱ "@ + parts[13] + "</span><span>👁 "@ + parts[16]
            + " views</span><span>📅 "@ + parts[19]
            + "</span></div></div></div><div class=\"links\">"@ + parts[23] + "</div></div>"@
            == written(parts, 26),
{
    reveal_with_fuel(written, 27);
    assert(Seq::<char>::empty() + parts[0] =~= parts[0]);
    lemma_last_two(written(parts, 2), parts[2], parts[3]);
    lemma_last_three(written(parts, 7), parts[7], parts[8], parts[9]);
    lemma_last_two(written(parts, 11), parts[11], parts[12]);
    lemma_last_two(written(parts, 14), parts[14], parts[15]);
    lemma_last_two(written(parts, 17), parts[17], parts[18]);
    lemma_last_three(written(parts, 20), parts[20], parts[21], parts[22]);
    lemma_last_two(written(parts, 24), parts[24], parts[25]);
}

/// What is written between the parts of a video closes one and opens the next.
proof fn lemma_video_literals()
    ensures
        "<div class=\"meta\"><h2><a href=\""@ == "<div class=\"meta\">"@ + "<h2><a href=\""@,
        "</a></h2><div class=\"stats\"><span>👤 "@ == "</a></h2>"@ + "<div class=\"stats\">"@
            + "<span>👤 "@,
        "</span><span>⏱ "@ == "</span>"@ + "<span>⏱ "@,
        "</span><span>👁 "@ == "</span>"@ + "<span>👁 "@,
        " views</span><span>📅 "@ == " views</span>"@ + "<span>📅 "@,
        "</span></div></div></div><div class=\"links\">"@ == "</span>"@ + "</div></div></div>"@
            + "<div class=\"links\">"@,
        "</div></div>"@ == "</div>"@ + "</div>"@,
{
    reveal_strlit("</span>");
    assert("<div class=\"meta\"><h2><a href=\""@ == "<div class=\"meta\">"@
        + "<h2><a href=\""@) by {
        reveal_strlit("<div class=\"meta\"><h2><a href=\"");
        reveal_strlit("<div class=\"meta\">");
        reveal_strlit("<h2><a href=\"");
    }
    assert("</a></h2><div class=\"stats\"><span>👤 "@ == "</a></h2>"@ + "<div class=\"stats\">"@
        + "<span>👤 "@) by {
        reveal_strlit("</a></h2><div class=\"stats\"><span>👤 ");
        reveal_strlit("</a></h2>");
        reveal_strlit("<div class=\"stats\">");
        reveal_strlit("<span>👤 ");
    }
    assert("</span><span>⏱ "@ == "</span>"@ + "<span>⏱ "@) by {
        reveal_strlit("</span><span>⏱ ");
        reveal_strlit("<span>⏱ ");
    }
    assert("</span><span>👁 "@ == "</span>"@ + "<span>👁 "@) by {
        reveal_strlit("</span><span>👁 ");
        reveal_strlit("<span>👁 ");
    }
    assert(" views</span><span>📅 "@ == " views</span>"@ + "<span>📅 "@) by {
        reveal_strlit(" views</span><span>📅 ");
        reveal_strlit(" views</span>");
        reveal_strlit("<span>📅 ");
    }
    assert("</span></div></div></div><div class=\"links\">"@ == "</span>"@ + "</div></div></div>"@
        + "<div class=\"links\">"@) by {
        reveal_strlit("</span></div></div></div><div class=\"links\">");
        reveal_strlit("</div></div></div>");
        reveal_strlit("<div class=\"links\">");
    }
    assert("</div></div>"@ == "</div>"@ + "</div>"@) by {
        reveal_strlit("</div></div>");
        reveal_strlit("</div>");
    }
}

/// A page shows its error, if there is one, before everything else; then the video, or a hint where
/// there is none; and at its end the file explorer.
pub proof fn a_page_shows_error_video_and_explorer(content: ContentView)
    ensures
        ({
            let alert = match content.error {
                Some(message) => "<div class=\"alert error\">⚠️ "@ + escaped(message) + "</div>"@,
                None => Seq::empty(),
            };
            &&& content.video matches Some(details) ==> result_text(content) == alert + video_text(
                details,
                content.formats,
                content.formats_error,
            ) + EXPLORER_HTML@
            &&& content.video is None ==> result_text(content) == alert
                + "<div class=\"placeholder\">Paste a YouTube URL or 11-character video ID above and click “Check video”.</div>"@
                + EXPLORER_HTML@
        }),
{
}

/// A page is its template with what was asked for, escaped, in the place of one mark, and what was
/// found in the place of the other, where each mark stands in it once.
pub proof fn a_page_is_its_template_filled_in(
    before: Seq<char>,
    between: Seq<char>,
    behind: Seq<char>,
    content: ContentView,
)
    requires
        ({
            let template = before + "{{ESCAPED_INPUT}}"@ + (between + "{{RESULT_SECTION}}"@
                + behind);
            let filled = before + escaped(content.input) + between;
            &&& forall|k: int|
                k < before.len() ==> !#[trigger] matches_at(template, "{{ESCAPED_INPUT}}"@, k)
            &&& !contains_text(between + "{{RESULT_SECTION}}"@ + behind, "{{ESCAPED_INPUT}}"@)
            &&& forall|k: int|
                k < filled.len() ==> !#[trigger] matches_at(
                    filled + "{{RESULT_SECTION}}"@ + behind,
                    "{{RESULT_SECTION}}"@,
                    k,
                )
            &&& !contains_text(behind, "{{RESULT_SECTION}}"@)
        }),
    ensures
        page_text(
            before + "{{ESCAPED_INPUT}}"@ + (between + "{{RESULT_SECTION}}"@ + behind),
            content,
        ) == before + escaped(content.input) + between + result_text(content) + behind,
{
    let first = "{{ESCAPED_INPUT}}"@;
    let second = "{{RESULT_SECTION}}"@;
    reveal_strlit("{{ESCAPED_INPUT}}");
    reveal_strlit("{{RESULT_SECTION}}");
    assert(first.len() == 17 && second.len() == 18);
    let rest = between + second + behind;
    let template = before + first + rest;
    let at = before.len() as int;
    assert(template.subrange(at, at + first.len()) =~= first);
    assert(matches_at(template, first, at));
    replacing_goes_on_behind_the_first_place(template, at, first, escaped(content.input));
    assert(template.take(at) =~= before);
    assert(template.skip(at + first.len()) =~= rest);
    replacing_goes_on_behind_the_first_place(rest, 0, first, escaped(content.input));
    let filled = before + escaped(content.input) + between;
    let whole = filled + second + behind;
    assert(before + escaped(content.input) + rest =~= whole);
    let place = filled.len() as int;
    assert(whole.subrange(place, place + second.len()) =~= second);
    assert(matches_at(whole, second, place));
    replacing_goes_on_behind_the_first_place(whole, place, second, result_text(content));
    assert(whole.take(place) =~= filled);
    assert(whole.skip(place + second.len()) =~= behind);
    replacing_goes_on_behind_the_first_place(behind, 0, second, result_text(content));
}

/// What is asked for is the first address in the query, without the white space round it. An
/// address that is not blank is looked up, without an error; a blank one, or none, in a query is an
/// error; and without a query nothing is asked for and nothing is wrong.
pub proof fn the_first_address_is_looked_up(
    query: Seq<char>,
    at: int,
    before: Seq<char>,
    address: Seq<char>,
    behind: Seq<char>,
)
    requires
        0 <= at < query_pairs(query).len(),
        query_pairs(query)[at] == ("url"@, before + address + behind),
        forall|k: int| 0 <= k < at ==> (#[trigger] query_pairs(query)[k]).0 != "url"@,
        forall|i: int| 0 <= i < before.len() ==> is_space(#[trigger] before[i]),
        forall|i: int| 0 <= i < behind.len() ==> is_space(#[trigger] behind[i]),
        address.len() > 0 ==> !is_space(address[0]) && !is_space(address.last()),
    ensures
        asked_input(Some(query)) == address,
        asks_for_video(Some(query)) <==> address.len() > 0,
        first_content(Some(query)).input == address,
        first_content(Some(query)).error == (if address.len() > 0 {
            None
        } else {
            Some("Please enter a video URL or ID."@)
        }),
        !asks_for_video(None),
        first_content(None).error is None,
        first_content(None).input.len() == 0,
{
    lemma_first_value(query_pairs(query), "url"@, at);
    trimming_takes_off_white_space(before, address, behind);
}

/// A query without an address asks for no video, and is told so.
pub proof fn a_query_without_an_address_is_an_error(query: Seq<char>)
    requires
        forall|k: int|
            0 <= k < query_pairs(query).len() ==> (#[trigger] query_pairs(query)[k]).0 != "url"@,
    ensures
        !asks_for_video(Some(query)),
        first_content(Some(query)).input.len() == 0,
        first_content(Some(query)).error == Some("Please enter a video URL or ID."@),
{
    lemma_no_first_value(query_pairs(query), "url"@);
}

/// Before anything was looked up, and where there is only an error to show, a page has no video and
/// no formats.
pub proof fn a_page_begins_without_a_video(query: Option<Seq<char>>, message: Seq<char>)
    ensures
        first_content(query).video is None,
        first_content(query).formats is None,
        first_content(query).formats_error is None,
        error_content(message).input.len() == 0,
        error_content(message).video is None,
        error_content(message).error == Some(message),
        error_content(message).formats is None,
        error_content(message).formats_error is None,
{
}



/// A video that was found is shown, and its formats are to be listed; where none was, the error is
/// shown, and there is nothing to list. What was asked for stays, and so does everything else.
pub proof fn a_look_up_brings_video_or_error(
    content: ContentView,
    details: DetailsView,
    error: Seq<char>,
)
    ensures
        ({
            let found = informed(content, Ok(details));
            &&& found.video == Some(details)
            &&& found.input == content.input
            &&& found.error == content.error
            &&& found.formats == content.formats
            &&& found.formats_error == content.formats_error
        }),
        ({
            let failed = informed(content, Err(error));
            &&& failed.error == Some("Unable to fetch info: "@ + error)
            &&& failed.input == content.input
            &&& failed.video == content.video
            &&& failed.formats == content.formats
            &&& failed.formats_error == content.formats_error
        }),
{
}

/// Formats that could be listed are shown without an error of theirs; where they could not, the
/// error takes their place. The video and the error of the page stay.
pub proof fn a_listing_brings_formats_or_their_error(
    content: ContentView,
    streams: Seq<StreamView>,
    error: Seq<char>,
)
    ensures
        ({
            let found = listed(content, Ok(streams));
            &&& found.formats == Some(streams)
            &&& found.formats_error is None
            &&& found.input == content.input
            &&& found.video == content.video
            &&& found.error == content.error
        }),
        ({
            let failed = listed(content, Err(error));
            &&& failed.formats is None
            &&& failed.formats_error == Some(error)
            &&& failed.input == content.input
            &&& failed.video == content.video
            &&& failed.error == content.error
        }),
{
}

} // verus!
