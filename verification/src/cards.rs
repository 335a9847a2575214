//! The list of formats on the page of a video: one card for each format, the best first.

use crate::download::{requested_by, RequestView};
use crate::form::{encode_form, form_text, is_form_char, last_filled_value, last_value};
use crate::form::{pair_views, query_pairs};
use crate::formats::{stream_views, StreamInfo, StreamView};
use crate::html::{escaped, escaped_is_inert, html_escape, unescaped};
use crate::html::unescaping_gives_the_text_back;
use crate::http::{first_line, method_of, route_of, target_of, RouteView};
use crate::numbers::{all_digits, bitrate_text, decimal, decimal_text, format_bitrate};
use crate::numbers::lemma_decimal;
use crate::order::{arrange, arrangement_exists, arrangement_is_unique, index_views};
use crate::order::{is_arrangement, is_strict_order, is_text_before, lemma_text_before_total};
use crate::order::{lemma_text_before_transitive, text_before, Precedence};
use crate::text::{a_found_text_is_the_first, contains_text, ends_with, find_char, find_text};
use crate::text::{is_space, lemma_find_char, lemma_item, lemma_last_three, lemma_last_two};
use crate::text::{lemma_stands_inside, lemma_still_stands, lines, matches_at, optional};
use crate::text::{same_text, split_char, splitting_cuts_at_the_first_separator, starts_with};
use crate::text::{trim_text, trimmed, trimming_takes_off_white_space, two_texts, word_len, words};
use crate::unicode::{lower_case, lowered};
use vstd::prelude::*;

verus! {

/// The text of one card. The texts given to it stand in it as they are.
pub open spec fn line_card_text(
    itag: Seq<char>,
    quality: Seq<char>,
    codecs: Seq<char>,
    bitrate: Seq<char>,
    endpoint: Seq<char>,
    data_type: Seq<char>,
    height: Seq<char>,
    bitrate_num: nat,
) -> Seq<char> {
    "<a class=\"format-card\" href=\"#\" role=\"button\" data-endpoint=\""@ + endpoint
        + "\" data-itag=\""@ + itag + "\" data-stream-type=\""@ + data_type + "\" data-height=\""@
        + height + "\" data-bitrate=\""@ + decimal_text(bitrate_num)
        + "\"><span class=\"format-itag\">"@ + itag
        + "</span><span class=\"format-sep\">|</span><span class=\"format-quality\">"@ + quality
        + "</span><span class=\"format-sep\">|</span><span class=\"format-codecs\">"@ + codecs
        + "</span><span class=\"format-sep\">|</span><span class=\"format-meta\">"@ + bitrate
        + "</span><span class=\"format-status\"></span></a>"@
}

/// One format as a single compact line: id, quality, codecs, bit rate. Height and bit rate are
/// also there as numbers, for the script of the page.
pub fn render_line_card(
    itag: &str,
    quality: &str,
    codecs: &str,
    bitrate: &str,
    endpoint: &str,
    data_type: &str,
    height: &str,
    bitrate_num: u64,
) -> (card: String)
    ensures
        card@ == line_card_text(
            itag@,
            quality@,
            codecs@,
            bitrate@,
            endpoint@,
            data_type@,
            height@,
            bitrate_num as nat,
        ),
{
    let number = decimal(bitrate_num);
    let mut card =
        "<a class=\"format-card\" href=\"#\" role=\"button\" data-endpoint=\"".to_owned();
    card.append(endpoint);
    card.append("\" data-itag=\"");
    card.append(itag);
    card.append("\" data-stream-type=\"");
    card.append(data_type);
    card.append("\" data-height=\"");
    card.append(height);
    card.append("\" data-bitrate=\"");
    card.append(number.as_str());
    card.append("\"><span class=\"format-itag\">");
    card.append(itag);
    card.append("</span><span class=\"format-sep\">|</span><span class=\"format-quality\">");
    card.append(quality);
    card.append("</span><span class=\"format-sep\">|</span><span class=\"format-codecs\">");
    card.append(codecs);
    card.append("</span><span class=\"format-sep\">|</span><span class=\"format-meta\">");
    card.append(bitrate);
    card.append("</span><span class=\"format-status\"></span></a>");
    card
}

/// What a card asks for when it is clicked.
pub open spec fn card_pairs(
    video_url: Seq<char>,
    itag: Seq<char>,
    container: Seq<char>,
    video_id: Seq<char>,
) -> Seq<(Seq<char>, Seq<char>)> {
    seq![
        ("video"@, video_url),
        ("itag"@, itag),
        ("container"@, container),
        ("video_id"@, video_id),
    ]
}

/// The request that a browser sends for a download with this query, with anything behind its
/// first line.
pub open spec fn card_request(query: Seq<char>, rest: Seq<char>) -> Seq<char> {
    "GET /download?"@ + query + " HTTP/1.1\r\n"@ + rest
}

/// The query that a card asks with. Sent back to the server, it leads to the download of exactly
/// this format of this video.
pub fn card_query(video_url: &str, itag: &str, container: &str, video_id: &str) -> (query: String)
    ensures
        query@ == form_text(card_pairs(video_url@, itag@, container@, video_id@)),
        query_pairs(query@) == card_pairs(video_url@, itag@, container@, video_id@),
        forall|rest: Seq<char>| #[trigger]
            route_of(card_request(query@, rest)) == RouteView::Download(Some(query@)),
        itag@.len() > 0 ==> requested_by(Some(query@)) == Ok::<_, Seq<char>>(
            (RequestView {
                video: video_url@,
                itag: itag@,
                container: container@,
                video_id: video_id@,
            }),
        ),
{
    let mut pairs: Vec<(String, String)> = Vec::new();
    pairs.push(("video".to_owned(), video_url.to_owned()));
    pairs.push(("itag".to_owned(), itag.to_owned()));
    pairs.push(("container".to_owned(), container.to_owned()));
    pairs.push(("video_id".to_owned(), video_id.to_owned()));
    assert(pair_views(pairs@) =~= card_pairs(video_url@, itag@, container@, video_id@));
    let query = encode_form(&pairs);
    proof {
        assert forall|rest: Seq<char>| #[trigger]
            route_of(card_request(query@, rest)) == RouteView::Download(Some(query@)) by {
            download_requests_keep_their_query(query@, rest);
        }
        if itag@.len() > 0 {
            card_query_asks_for_its_format(query@, video_url@, itag@, container@, video_id@);
        }
    }
    query
}

/// What the script of the page takes a stream for, from the name of its kind in lower case.
pub open spec fn data_type_text(kind: Seq<char>) -> Seq<char> {
    if kind == "muxed"@ {
        "muxed"@
    } else if kind == "video"@ {
        "video"@
    } else {
        "audio"@
    }
}

/// What the script of the page takes a stream for, from the name of its kind in lower case.
pub fn data_type_of(kind: &str) -> (data_type: &'static str)
    ensures
        data_type@ == data_type_text(kind@),
{
    if same_text(kind, "muxed") {
        "muxed"
    } else if same_text(kind, "video") {
        "video"
    } else {
        "audio"
    }
}

/// The height of a stream in decimal, nothing where it has none.
pub open spec fn height_text(height: Option<u32>) -> Seq<char> {
    match height {
        Some(lines) => decimal_text(lines as nat),
        None => Seq::empty(),
    }
}

/// The id of a stream, nothing where it has none.
pub open spec fn id_text(itag: Option<Seq<char>>) -> Seq<char> {
    match itag {
        Some(id) => id,
        None => Seq::empty(),
    }
}

/// The card of a stream of the video with this address and id.
pub open spec fn card_text(stream: StreamView, video_url: Seq<char>, video_id: Seq<char>) -> Seq<
    char,
> {
    let itag = id_text(stream.itag);
    line_card_text(
        itag,
        escaped(stream.quality),
        escaped(stream.container),
        escaped(bitrate_text(stream.bitrate as nat)),
        escaped(
            "/download?"@ + form_text(card_pairs(video_url, itag, stream.container, video_id)),
        ),
        data_type_text(lowered(stream.stream_type)),
        height_text(stream.height),
        stream.bitrate as nat,
    )
}

/// The card of a stream.
pub fn render_format_card_stream(s: &StreamInfo, video_url: &str, video_id: &str) -> (card: String)
    ensures
        card@ == card_text(s@, video_url@, video_id@),
        s@.itag is Some && s@.itag->0.len() > 0 ==> {
            let target = target_of_card(card@);
            &&& target is Some
            &&& starts_with(target->0, "/download?"@)
            &&& requested_by(Some(target->0.skip(10))) == Ok::<_, Seq<char>>(
                (RequestView {
                    video: video_url@,
                    itag: s@.itag->0,
                    container: s@.container,
                    video_id: video_id@,
                }),
            )
        },
{
    let itag = match &s.itag {
        Some(id) => id.clone(),
        None => String::new(),
    };
    assert(itag@ =~= id_text(s@.itag));
    let quality = html_escape(s.quality.as_str());
    let codecs = html_escape(s.container.as_str());
    let rate = format_bitrate(s.bitrate);
    let bitrate = html_escape(rate.as_str());
    let query = card_query(video_url, itag.as_str(), s.container.as_str(), video_id);
    let target = two_texts("/download?", query.as_str());
    let endpoint = html_escape(target.as_str());
    let kind = lower_case(s.stream_type.as_str());
    let data_type = data_type_of(kind.as_str());
    proof {
        a_card_asks_for_its_own_stream(s@, video_url@, video_id@, id_text(s@.itag));
        reveal_strlit("/download?");
        assert(target@.subrange(0, 10) =~= "/download?"@);
        assert(target@.skip(10) =~= query@);
    }
    let height = match s.height {
        Some(lines) => decimal(lines as u64),
        None => String::new(),
    };
    assert(height@ =~= height_text(s@.height));
    render_line_card(
        itag.as_str(),
        quality.as_str(),
        codecs.as_str(),
        bitrate.as_str(),
        endpoint.as_str(),
        data_type,
        height.as_str(),
        s.bitrate,
    )
}

/// The filter above the cards, and the button that fetches the best pair.
pub const FORMAT_FILTER_HTML: &'static str = "<div class=\"format-filter\" role=\"group\" aria-label=\"Filter by stream type\">
        <span class=\"format-filter-label\">Filter:</span>
        <label><input type=\"radio\" name=\"format-filter\" value=\"all\" checked> ALL</label>
        <label><input type=\"radio\" name=\"format-filter\" value=\"video\"> V</label>
        <label><input type=\"radio\" name=\"format-filter\" value=\"audio\"> A</label>
        <label><input type=\"radio\" name=\"format-filter\" value=\"muxed\"> V & A</label>
        <button type=\"button\" id=\"combo-best\" class=\"combo-btn\" title=\"Download the best ≤1080p video + best audio, then merge into a phone-ready MP4\"><span class=\"combo-fill\"></span><span class=\"combo-label\">⬇ 1080p + 🎵 → MP4</span></button>
    </div>";

/// The filter above the cards, and the button that fetches the best pair.
pub fn render_format_filter_radios() -> (text: String)
    ensures
        text@ == FORMAT_FILTER_HTML@,
{
    FORMAT_FILTER_HTML.to_owned()
}

/// What stands in place of the formats where there are none, with the error that explains it.
pub open spec fn empty_list_text(error: Option<Seq<char>>) -> Seq<char> {
    let message = match error {
        None => "No downloadable streams."@,
        Some(text) => if trimmed(text).len() == 0 {
            "Ensure yt-dlp.exe is in the same folder as downloader.exe."@
        } else {
            "Formats could not be loaded: "@ + escaped(trimmed(text))
        },
    };
    "<div class=\"format-list\"><h3>Available formats</h3><p class=\"muted\">"@ + message
        + "</p></div>"@
}

/// What stands in place of the formats where there are none.
pub fn render_format_list_empty(formats_error: &Option<String>) -> (text: String)
    ensures
        text@ == empty_list_text(optional(*formats_error)),
{
    let message = match formats_error {
        None => "No downloadable streams.".to_owned(),
        Some(error) => {
            let kept = trim_text(error.as_str());
            if kept.as_str().is_empty() {
                "Ensure yt-dlp.exe is in the same folder as downloader.exe.".to_owned()
            } else {
                let shown = html_escape(kept.as_str());
                two_texts("Formats could not be loaded: ", shown.as_str())
            }
        },
    };
    let mut text = two_texts(
        "<div class=\"format-list\"><h3>Available formats</h3><p class=\"muted\">",
        message.as_str(),
    );
    text.append("</p></div>");
    text
}

/// Stream `k` has an id, and no stream with the same id has a higher bit rate, nor the same one
/// and an earlier place.
pub open spec fn is_best(streams: Seq<StreamView>, k: int) -> bool {
    &&& 0 <= k < streams.len()
    &&& streams[k].itag is Some
    &&& forall|j: int|
        0 <= j < streams.len() && (#[trigger] streams[j]).itag == streams[k].itag
            ==> streams[j].bitrate < streams[k].bitrate || (streams[j].bitrate == streams[k].bitrate
            && k <= j)
}

/// The card of stream `left` comes before that of stream `right`: higher bit rates first, equal
/// ones by id.
pub open spec fn card_before(streams: Seq<StreamView>, left: int, right: int) -> bool {
    ||| streams[left].bitrate > streams[right].bitrate
    ||| streams[left].bitrate == streams[right].bitrate && (text_before(
        streams[left].itag->0,
        streams[right].itag->0,
    ) || (streams[left].itag->0 == streams[right].itag->0 && left < right))
}

/// `order` holds the indices of the streams that get a card, in the order of the cards.
pub open spec fn is_card_order(streams: Seq<StreamView>, order: Seq<int>) -> bool {
    is_arrangement(
        order,
        |k: int| is_best(streams, k),
        |left: int, right: int| card_before(streams, left, right),
    )
}

/// The indices of the streams that get a card, in the order of the cards.
pub open spec fn card_order(streams: Seq<StreamView>) -> Seq<int> {
    choose|order: Seq<int>| is_card_order(streams, order)
}

/// The cards of the streams with the given indices.
pub open spec fn cards_text(
    streams: Seq<StreamView>,
    order: Seq<int>,
    video_url: Seq<char>,
    video_id: Seq<char>,
) -> Seq<char>
    decreases order.len(),
{
    if order.len() == 0 {
        Seq::empty()
    } else {
        cards_text(streams, order.drop_last(), video_url, video_id) + card_text(
            streams[order.last()],
            video_url,
            video_id,
        )
    }
}

/// Some stream has an id.
pub open spec fn some_id(streams: Seq<StreamView>) -> bool {
    exists|k: int| 0 <= k < streams.len() && (#[trigger] streams[k]).itag is Some
}

/// The list of the formats of a video.
pub open spec fn format_list_text(
    streams: Seq<StreamView>,
    video_url: Seq<char>,
    video_id: Seq<char>,
) -> Seq<char> {
    if !some_id(streams) {
        "<div class=\"format-list\"><h3>Available formats</h3><p class=\"muted\">No streams.</p></div>"@
    } else {
        "<div class=\"format-list\"><h3>Available formats</h3>"@ + FORMAT_FILTER_HTML@
            + "<div class=\"format-grid\">"@ + cards_text(
            streams,
            card_order(streams),
            video_url,
            video_id,
        ) + "</div></div>"@
    }
}

proof fn lemma_card_before_strict(streams: Seq<StreamView>)
    ensures
        is_strict_order(|left: int, right: int| card_before(streams, left, right)),
{
    let before = |left: int, right: int| card_before(streams, left, right);
    assert forall|a: int| !#[trigger] before(a, a) by {
        lemma_text_before_total(streams[a].itag->0, streams[a].itag->0);
    }
    assert forall|a: int, b: int| a != b implies #[trigger] before(a, b) || before(b, a) by {
        lemma_text_before_total(streams[a].itag->0, streams[b].itag->0);
    }
    assert forall|a: int, b: int, c: int| #[trigger]
        before(a, b) && #[trigger] before(b, c) implies before(a, c) by {
        if text_before(streams[a].itag->0, streams[b].itag->0) && text_before(
            streams[b].itag->0,
            streams[c].itag->0,
        ) {
            lemma_text_before_transitive(
                streams[a].itag->0,
                streams[b].itag->0,
                streams[c].itag->0,
            );
        }
    }
}

/// The order of the cards of a list of streams.
struct ByRate<'a> {
    streams: &'a Vec<StreamInfo>,
}

impl<'a> Precedence for ByRate<'a> {
    closed spec fn covers(&self, index: int) -> bool {
        0 <= index < self.streams@.len()
    }

    closed spec fn before(&self, left: int, right: int) -> bool {
        card_before(ids_filled(stream_views(self.streams@)), left, right)
    }

    proof fn strict(&self) {
        let streams = ids_filled(stream_views(self.streams@));
        lemma_card_before_strict(streams);
        assert((|left: int, right: int| self.before(left, right)) =~= (|left: int, right: int|
            card_before(streams, left, right)));
    }

    fn precedes(&self, left: usize, right: usize) -> (before: bool) {
        let left_stream = &self.streams[left];
        let right_stream = &self.streams[right];
        if left_stream.bitrate != right_stream.bitrate {
            return left_stream.bitrate > right_stream.bitrate;
        }
        let left_id = id_or_empty(left_stream);
        let right_id = id_or_empty(right_stream);
        proof {
            lemma_text_before_total(left_id@, right_id@);
        }
        is_text_before(left_id.as_str(), right_id.as_str()) || (!is_text_before(
            right_id.as_str(),
            left_id.as_str(),
        ) && left < right)
    }
}

/// The streams with an empty id where they have none.
spec fn ids_filled(streams: Seq<StreamView>) -> Seq<StreamView> {
    streams.map_values(
        |stream: StreamView| StreamView { itag: Some(id_text(stream.itag)), ..stream },
    )
}

/// The id of a stream, nothing where it has none.
fn id_or_empty(stream: &StreamInfo) -> (id: String)
    ensures
        id@ == id_text(stream@.itag),
{
    match &stream.itag {
        Some(id) => id.clone(),
        None => String::new(),
    }
}

/// Whether stream `k` gets a card.
fn gets_card(streams: &Vec<StreamInfo>, k: usize) -> (best: bool)
    requires
        k < streams.len(),
    ensures
        best == is_best(stream_views(streams@), k as int),
{
    let ghost all = stream_views(streams@);
    assert(all[k as int] == streams@[k as int]@);
    let id = match &streams[k].itag {
        Some(id) => id,
        None => {
            return false;
        },
    };
    let mut j: usize = 0;
    while j < streams.len()
        invariant
            j <= streams.len(),
            k < streams.len(),
            all == stream_views(streams@),
            all[k as int].itag == Some(id@),
            all[k as int].bitrate == streams@[k as int].bitrate,
            forall|i: int|
                0 <= i < j && (#[trigger] all[i]).itag == all[k as int].itag ==> all[i].bitrate
                    < all[k as int].bitrate || (all[i].bitrate == all[k as int].bitrate && k <= i),
        decreases streams.len() - j,
    {
        assert(all[j as int] == streams@[j as int]@);
        if let Some(other) = &streams[j].itag {
            if same_text(other.as_str(), id.as_str()) && (streams[j].bitrate > streams[k].bitrate
                || (streams[j].bitrate == streams[k].bitrate && j < k)) {
                return false;
            }
        }
        j = j + 1;
    }
    true
}

/// The indices of the streams that get a card, in the order of the cards.
pub fn order_cards(streams: &Vec<StreamInfo>) -> (order: Vec<usize>)
    ensures
        index_views(order@) == card_order(stream_views(streams@)),
        forall|i: int| 0 <= i < order@.len() ==> (#[trigger] order@[i]) < streams.len(),
{
    let ghost all = stream_views(streams@);
    let mut chosen: Vec<bool> = Vec::new();
    let mut k: usize = 0;
    while k < streams.len()
        invariant
            k <= streams.len(),
            all == stream_views(streams@),
            chosen@.len() == k,
            forall|i: int| 0 <= i < k ==> #[trigger] chosen@[i] == is_best(all, i),
        decreases streams.len() - k,
    {
        chosen.push(gets_card(streams, k));
        k = k + 1;
    }
    let by_rate = ByRate { streams };
    let order = arrange(&by_rate, &chosen);
    proof {
        let list = index_views(order@);
        let picked = |k: int| 0 <= k < chosen@.len() && chosen@[k];
        let filled = ids_filled(all);
        assert(is_arrangement(list, picked, |left: int, right: int| by_rate.before(left, right)));
        assert forall|i: int| #[trigger] list.contains(i) <==> is_best(all, i) by {
            assert(list.contains(i) <==> picked(i));
        }
        assert forall|i: int, j: int| 0 <= i < j < list.len() implies card_before(
            all,
            #[trigger] list[i],
            #[trigger] list[j],
        ) by {
            assert(list.contains(list[i]));
            assert(list.contains(list[j]));
            assert(by_rate.before(list[i], list[j]));
            assert(filled[list[i]].itag->0 == all[list[i]].itag->0);
            assert(filled[list[j]].itag->0 == all[list[j]].itag->0);
        }
        assert(is_card_order(all, list));
        card_order_is_the_one(all, list);
    }
    order
}

/// Whether some stream has an id.
fn any_id(streams: &Vec<StreamInfo>) -> (found: bool)
    ensures
        found == some_id(stream_views(streams@)),
{
    let ghost all = stream_views(streams@);
    let mut i: usize = 0;
    while i < streams.len()
        invariant
            i <= streams.len(),
            all == stream_views(streams@),
            forall|k: int| 0 <= k < i ==> (#[trigger] all[k]).itag is None,
        decreases streams.len() - i,
    {
        assert(all[i as int] == streams@[i as int]@);
        if streams[i].itag.is_some() {
            return true;
        }
        i = i + 1;
    }
    false
}

/// The list of the formats of a video.
pub fn render_format_list_streams(
    streams: &Vec<StreamInfo>,
    video_url: &str,
    video_id: &str,
) -> (text: String)
    ensures
        text@ == format_list_text(stream_views(streams@), video_url@, video_id@),
{
    if !any_id(streams) {
        return "<div class=\"format-list\"><h3>Available formats</h3><p class=\"muted\">No streams.</p></div>".to_owned();
    }
    let ghost all = stream_views(streams@);
    let order = order_cards(streams);
    let ghost list = index_views(order@);
    let mut cards = String::new();
    let mut i: usize = 0;
    assert(cards@ =~= cards_text(all, list.take(0), video_url@, video_id@));
    while i < order.len()
        invariant
            i <= order.len(),
            all == stream_views(streams@),
            list == index_views(order@),
            forall|i: int| 0 <= i < order@.len() ==> (#[trigger] order@[i]) < streams.len(),
            cards@ == cards_text(all, list.take(i as int), video_url@, video_id@),
        decreases order.len() - i,
    {
        let card = render_format_card_stream(&streams[order[i]], video_url, video_id);
        assert(list.take(i + 1).drop_last() =~= list.take(i as int));
        assert(list.take(i + 1).last() == order@[i as int]);
        assert(all[order@[i as int] as int] == streams@[order@[i as int] as int]@);
        cards.append(card.as_str());
        i = i + 1;
    }
    assert(list.take(i as int) =~= list);
    let filter = render_format_filter_radios();
    let mut text = "<div class=\"format-list\"><h3>Available formats</h3>".to_owned();
    text.append(filter.as_str());
    text.append("<div class=\"format-grid\">");
    text.append(cards.as_str());
    text.append("</div></div>");
    text
}

/// The order of the cards is the only one with the best stream of each id, sorted by bit rate from
/// the highest down and, where rates are equal, by id.
pub proof fn card_order_is_the_one(streams: Seq<StreamView>, order: Seq<int>)
    ensures
        is_card_order(streams, card_order(streams)),
        is_card_order(streams, order) <==> order == card_order(streams),
{
    let chosen = |k: int| is_best(streams, k);
    let before = |left: int, right: int| card_before(streams, left, right);
    lemma_card_before_strict(streams);
    let some = arrangement_exists(streams.len(), chosen, before);
    assert(is_card_order(streams, some));
    if is_card_order(streams, order) {
        arrangement_is_unique(order, card_order(streams), chosen, before);
    }
}

/// Every id that a stream has is on exactly one card, which is that of a stream with the highest
/// bit rate under this id.
pub proof fn each_id_has_one_card(streams: Seq<StreamView>, k: int)
    requires
        0 <= k < streams.len(),
        streams[k].itag is Some,
    ensures
        exists|i: int|
            0 <= i < card_order(streams).len() && {
                let best = #[trigger] streams[card_order(streams)[i]];
                &&& best.itag == streams[k].itag
                &&& streams[k].bitrate <= best.bitrate
            },
        forall|i: int, j: int|
            0 <= i < card_order(streams).len() && 0 <= j < card_order(streams).len()
                && (#[trigger] streams[card_order(streams)[i]]).itag == (
            #[trigger] streams[card_order(streams)[j]]).itag ==> i == j,
{
    let order = card_order(streams);
    card_order_is_the_one(streams, order);
    let best = lemma_best_exists(streams, k, 0, k);
    let chosen = |k: int| is_best(streams, k);
    assert(order.contains(best) <==> chosen(best));
    let at = order.index_of(best);
    assert(streams[order[at]].itag == streams[k].itag);
    assert forall|i: int, j: int|
        0 <= i < order.len() && 0 <= j < order.len() && (#[trigger] streams[order[i]]).itag == (
        #[trigger] streams[order[j]]).itag implies i == j by {
        assert(order.contains(order[i]) <==> chosen(order[i]));
        assert(order.contains(order[j]) <==> chosen(order[j]));
        lemma_card_before_strict(streams);
        let before = |left: int, right: int| card_before(streams, left, right);
        if i < j {
            assert(before(order[i], order[j]));
        } else if j < i {
            assert(before(order[j], order[i]));
        }
    }
}

proof fn lemma_best_exists(streams: Seq<StreamView>, k: int, from: int, best: int) -> (found: int)
    requires
        0 <= k < streams.len(),
        0 <= best < streams.len(),
        0 <= from <= streams.len(),
        streams[k].itag is Some,
        streams[best].itag == streams[k].itag,
        streams[k].bitrate <= streams[best].bitrate,
        forall|j: int|
            0 <= j < from && (#[trigger] streams[j]).itag == streams[k].itag
                ==> streams[j].bitrate < streams[best].bitrate || (streams[j].bitrate
                == streams[best].bitrate && best <= j),
    ensures
        is_best(streams, found),
        streams[found].itag == streams[k].itag,
        streams[k].bitrate <= streams[found].bitrate,
    decreases streams.len() - from,
{
    if from == streams.len() {
        best
    } else if streams[from].itag == streams[k].itag && (streams[from].bitrate
        > streams[best].bitrate || (streams[from].bitrate == streams[best].bitrate && from
        < best)) {
        lemma_best_exists(streams, k, from + 1, from)
    } else {
        lemma_best_exists(streams, k, from + 1, best)
    }
}

/// A card further down has no higher bit rate.
pub proof fn cards_go_down_in_bitrate(streams: Seq<StreamView>, i: int, j: int)
    requires
        0 <= i <= j < card_order(streams).len(),
    ensures
        streams[card_order(streams)[i]].bitrate >= streams[card_order(streams)[j]].bitrate,
{
    let order = card_order(streams);
    card_order_is_the_one(streams, order);
    let before = |left: int, right: int| card_before(streams, left, right);
    if i < j {
        assert(before(order[i], order[j]));
    }
}

/// A word at the start of a text is the first of its words.
proof fn lemma_first_word(word: Seq<char>, rest: Seq<char>)
    requires
        word.len() > 0,
        forall|i: int| 0 <= i < word.len() ==> !is_space(#[trigger] word[i]),
    ensures
        words(word + seq![' '] + rest) == seq![word] + words(seq![' '] + rest),
{
    let text = word + seq![' '] + rest;
    lemma_word_len(word, rest);
    assert(text[0] == word[0]);
    assert(text.take(word.len() as int) =~= word);
    assert(text.skip(word.len() as int) =~= seq![' '] + rest);
}

proof fn lemma_word_len(word: Seq<char>, rest: Seq<char>)
    requires
        forall|i: int| 0 <= i < word.len() ==> !is_space(#[trigger] word[i]),
    ensures
        word_len(word + seq![' '] + rest) == word.len(),
    decreases word.len(),
{
    let text = word + seq![' '] + rest;
    if word.len() == 0 {
        assert(text[0] == ' ');
    } else {
        assert(text[0] == word[0]);
        assert(text.drop_first() =~= word.drop_first() + seq![' '] + rest);
        lemma_word_len(word.drop_first(), rest);
    }
}

/// A request for a download with an encoded query is taken as such, and the query arrives as it
/// was sent.
pub proof fn download_requests_keep_their_query(query: Seq<char>, rest: Seq<char>)
    requires
        forall|i: int| 0 <= i < query.len() ==> is_form_char(#[trigger] query[i]),
    ensures
        route_of(card_request(query, rest)) == RouteView::Download(Some(query)),
{
    reveal_strlit("GET /download?");
    reveal_strlit(" HTTP/1.1\r\n");
    reveal_strlit("GET");
    reveal_strlit("/download");
    reveal_strlit("/health");
    reveal_strlit("/files");
    reveal_strlit("/open-folder");
    reveal_strlit("/merge");
    reveal_strlit("/to-mp3");
    reveal_strlit("/download/status");
    let request = card_request(query, rest);
    let head = "GET /download?"@ + query + " HTTP/1.1"@;
    reveal_strlit(" HTTP/1.1");
    let end = head.len() as int + 1;
    assert(request =~= head + seq!['\r', '\n'] + rest);
    lemma_find_char(request, '\n', 0);
    assert(forall|i: int| 0 <= i < end ==> request[i] != '\n');
    assert(request[end] == '\n');
    assert(find_char(request, '\n') == Some(end));
    assert(request.take(end).drop_last() =~= head);
    assert(request.take(end).last() == '\r');
    let line = first_line(request);
    assert(line == head);
    let target = "/download?"@ + query;
    reveal_strlit("/download?");
    let version = "HTTP/1.1"@;
    reveal_strlit("HTTP/1.1");
    assert(line =~= "GET"@ + seq![' '] + (target + seq![' '] + version));
    lemma_first_word("GET"@, target + seq![' '] + version);
    assert((seq![' '] + (target + seq![' '] + version)).drop_first() =~= target + seq![' ']
        + version);
    lemma_first_word(target, version);
    assert(words(line) =~= seq!["GET"@] + (seq![target] + words(seq![' '] + version)));
    assert(method_of(line) == "GET"@);
    assert(target_of(line) == target);
    lemma_find_char(target, '?', 0);
    assert(target[9] == '?');
    assert(find_char(target, '?') == Some(9int));
    assert(target.take(9) =~= "/download"@);
    assert(target.skip(10) =~= query);
    let path = "/download"@;
    assert(path.subrange(0, 9) =~= "/download"@);
    assert(matches_at(path, "/download"@, 0));
    assert(path.len() == 9 && path[1] == 'd');
    assert("/health"@.len() == 7);
    assert("/files"@.len() == 6);
    assert("/open-folder"@.len() == 12);
    assert("/merge"@.len() == 6);
    assert("/to-mp3"@.len() == 7);
    assert("/download/status"@.len() == 16);
}

/// A query with the pairs of a card asks for the format of that card, and for no other.
pub proof fn card_query_asks_for_its_format(
    query: Seq<char>,
    video_url: Seq<char>,
    itag: Seq<char>,
    container: Seq<char>,
    video_id: Seq<char>,
)
    requires
        query_pairs(query) == card_pairs(video_url, itag, container, video_id),
        itag.len() > 0,
    ensures
        requested_by(Some(query)) == Ok::<_, Seq<char>>(
            (RequestView { video: video_url, itag, container, video_id }),
        ),
{
    reveal_strlit("video");
    reveal_strlit("itag");
    reveal_strlit("container");
    reveal_strlit("video_id");
    assert("video"@.len() == 5);
    assert("itag"@.len() == 4);
    assert("container"@.len() == 9);
    assert("video_id"@.len() == 8);
    let pairs = card_pairs(video_url, itag, container, video_id);
    let three = pairs.drop_last();
    let two = three.drop_last();
    let one = two.drop_last();
    assert(three.last() == ("container"@, container));
    assert(two.last() == ("itag"@, itag));
    assert(one.last() == ("video"@, video_url));
    reveal_with_fuel(last_value, 5);
    reveal_with_fuel(last_filled_value, 5);
}

/// The text between the quotes that follow the first `data-endpoint=` of a card, as a browser reads
/// it: what a click on the card asks for.
pub open spec fn target_of_card(card: Seq<char>) -> Option<Seq<char>> {
    match find_text(card, "data-endpoint=\""@) {
        Some(at) => {
            let rest = card.skip(at + "data-endpoint=\""@.len());
            match find_char(rest, '"') {
                Some(end) => Some(unescaped(rest.take(end))),
                None => None,
            }
        },
        None => None,
    }
}

/// A click on the card of a stream asks for a download, with a query that is made of the address of
/// the video, the stream's own id, the stream's own container and the id of the video.
pub proof fn a_card_asks_for_its_own_stream(
    stream: StreamView,
    video_url: Seq<char>,
    video_id: Seq<char>,
    itag: Seq<char>,
)
    requires
        stream.itag == Some(itag) || (stream.itag is None && itag.len() == 0),
    ensures
        target_of_card(card_text(stream, video_url, video_id)) == Some(
            "/download?"@ + form_text(
                seq![
                    ("video"@, video_url),
                    ("itag"@, itag),
                    ("container"@, stream.container),
                    ("video_id"@, video_id),
                ],
            ),
        ),
{
    let card = card_text(stream, video_url, video_id);
    assert(id_text(stream.itag) =~= itag);
    let target = "/download?"@ + form_text(
        seq![
            ("video"@, video_url),
            ("itag"@, itag),
            ("container"@, stream.container),
            ("video_id"@, video_id),
        ],
    );
    let behind = lemma_card_starts_with_its_target(stream, video_url, video_id);
    lemma_target(card, target, behind);
}

proof fn lemma_card_starts_with_its_target(
    stream: StreamView,
    video_url: Seq<char>,
    video_id: Seq<char>,
) -> (behind: Seq<char>)
    ensures
        card_text(stream, video_url, video_id)
            == "<a class=\"format-card\" href=\"#\" role=\"button\" data-endpoint=\""@ + escaped(
            "/download?"@ + form_text(
                card_pairs(video_url, id_text(stream.itag), stream.container, video_id),
            ),
        ) + behind,
        behind.len() > 0,
        behind[0] == '"',
{
    let card = card_text(stream, video_url, video_id);
    let front = "<a class=\"format-card\" href=\"#\" role=\"button\" data-endpoint=\""@ + escaped(
        "/download?"@ + form_text(
            card_pairs(video_url, id_text(stream.itag), stream.container, video_id),
        ),
    );
    reveal_strlit("\" data-itag=\"");
    let behind = card.skip(front.len() as int);
    assert(card =~= front + behind);
    behind
}

proof fn lemma_target(card: Seq<char>, target: Seq<char>, behind: Seq<char>)
    requires
        card == "<a class=\"format-card\" href=\"#\" role=\"button\" data-endpoint=\""@ + escaped(
            target,
        ) + behind,
        behind.len() > 0,
        behind[0] == '"',
    ensures
        target_of_card(card) == Some(target),
{
    reveal_strlit("<a class=\"format-card\" href=\"#\" role=\"button\" data-endpoint=\"");
    reveal_strlit("data-endpoint=\"");
    let front = "<a class=\"format-card\" href=\"#\" role=\"button\" data-endpoint=\""@;
    let mark = "data-endpoint=\""@;
    let at = front.len() - mark.len();
    assert(front.len() == 61 && mark.len() == 15);
    assert(card.subrange(at, at + mark.len()) =~= mark);
    assert(matches_at(card, mark, at));
    assert forall|k: int| k < at implies !#[trigger] matches_at(card, mark, k) by {
        if matches_at(card, mark, k) {
            let found = card.subrange(k, k + mark.len());
            assert(found[0] == card[k] && found[1] == card[k + 1]);
            assert(card[k] == front[k] && card[k + 1] == front[k + 1]);
            assert(front[k] == 'd' && front[k + 1] == 'a');
        }
    }
    a_found_text_is_the_first(card, mark);
    let found = find_text(card, mark)->0;
    assert(found == at) by {
        if found < at {
            assert(!matches_at(card, mark, found));
        } else if found > at {
            assert(!matches_at(card, mark, at));
        }
    }
    let rest = card.skip(at + mark.len());
    let text = escaped(target);
    assert(rest =~= text + behind);
    lemma_find_char(rest, '"', 0);
    assert forall|k: int| 0 <= k < text.len() implies rest[k] != '"' by {
        escaped_is_inert(target, k);
    }
    assert(rest[text.len() as int] == '"');
    assert(find_char(rest, '"') == Some(text.len() as int));
    assert(rest.take(text.len() as int) =~= text);
    unescaping_gives_the_text_back(target);
}

/// The attributes of a card tell id, kind, height and bit rate of its stream to the script of the
/// page, where the id holds no quote. Split at the quotes, they are in these places.
pub proof fn a_card_tells_the_script_of_its_stream(
    stream: StreamView,
    video_url: Seq<char>,
    video_id: Seq<char>,
)
    requires
        !id_text(stream.itag).contains('"'),
    ensures
        ({
            let pieces = split_char(card_text(stream, video_url, video_id), '"');
            &&& pieces.len() > 15
            &&& pieces[8] == " data-itag="@
            &&& stream.itag matches Some(id) ==> pieces[9] == id
            &&& stream.itag is None ==> pieces[9].len() == 0
            &&& pieces[10] == " data-stream-type="@
            &&& lowered(stream.stream_type) == "muxed"@ ==> pieces[11] == "muxed"@
            &&& lowered(stream.stream_type) == "video"@ ==> pieces[11] == "video"@
            &&& lowered(stream.stream_type) != "muxed"@ && lowered(stream.stream_type) != "video"@
                ==> pieces[11] == "audio"@
            &&& pieces[12] == " data-height="@
            &&& stream.height matches Some(lines) ==> pieces[13] == decimal_text(lines as nat)
            &&& stream.height is None ==> pieces[13].len() == 0
            &&& pieces[14] == " data-bitrate="@
            &&& pieces[15] == decimal_text(stream.bitrate as nat)
        }),
{
    let card = card_text(stream, video_url, video_id);
    let itag = id_text(stream.itag);
    let target = "/download?"@ + form_text(
        card_pairs(video_url, itag, stream.container, video_id),
    );
    let endpoint = escaped(target);
    let kind = data_type_text(lowered(stream.stream_type));
    let height = height_text(stream.height);
    let rate = decimal_text(stream.bitrate as nat);
    let shown = lemma_card_attributes(stream, video_url, video_id);
    let front = "<a class=\"format-card\" href=\"#\" role=\"button\" data-endpoint=\""@;
    let up_to_itag = front + endpoint + "\" data-itag=\""@;
    let up_to_kind = up_to_itag + itag + "\" data-stream-type=\""@;
    let up_to_height = up_to_kind + kind + "\" data-height=\""@;
    let from_rate = rate + shown;
    let from_height = height + "\" data-bitrate=\""@ + from_rate;
    let from_kind = kind + "\" data-height=\""@ + from_height;
    let from_itag = itag + "\" data-stream-type=\""@ + from_kind;
    let from_endpoint = endpoint + "\" data-itag=\""@ + from_itag;
    lemma_last_two(up_to_height + height + "\" data-bitrate=\""@, rate, shown);
    lemma_last_three(up_to_height, height, "\" data-bitrate=\""@, from_rate);
    lemma_last_three(up_to_kind, kind, "\" data-height=\""@, from_height);
    lemma_last_three(up_to_itag, itag, "\" data-stream-type=\""@, from_kind);
    lemma_last_three(front, endpoint, "\" data-itag=\""@, from_itag);
    assert(card == front + from_endpoint);
    lemma_card_front(from_endpoint);
    lemma_attribute_literals();
    if endpoint.contains('"') {
        let k = endpoint.index_of('"');
        escaped_is_inert(target, k);
    }
    lemma_no_quotes(stream);
    lemma_attribute(endpoint, " data-itag="@, from_itag);
    lemma_attribute(itag, " data-stream-type="@, from_kind);
    lemma_attribute(kind, " data-height="@, from_height);
    lemma_attribute(height, " data-bitrate="@, from_rate);
    assert(from_rate =~= rate + seq!['"'] + shown.skip(1));
    splitting_cuts_at_the_first_separator(rate, shown.skip(1), '"');
    let pieces = split_char(card, '"');
    let one = split_char(from_endpoint, '"');
    let two = split_char(from_itag, '"');
    let three = split_char(from_kind, '"');
    let four = split_char(from_height, '"');
    let five = split_char(from_rate, '"');
    assert(one == seq![endpoint, " data-itag="@] + two);
    assert(pieces.skip(7) == one);
    assert(pieces[8] == one[1]);
    assert(forall|k: int| 0 <= k < two.len() ==> two[k] == one[k + 2]);
    assert(forall|k: int| 0 <= k < two.len() ==> two[k] == pieces[k + 9]);
    assert(forall|k: int| 0 <= k < three.len() ==> three[k] == two[k + 2]);
    assert(forall|k: int| 0 <= k < four.len() ==> four[k] == three[k + 2]);
    assert(five[0] == four[2] && four[2] == three[4] && three[4] == two[6] && two[6] == pieces[15]);
    assert(four[0] == three[2] && three[2] == two[4] && two[4] == pieces[13]);
    assert(four[1] == three[3] && three[3] == two[5] && two[5] == pieces[14]);
    assert(three[0] == two[2] && two[2] == pieces[11]);
    assert(three[1] == two[3] && two[3] == pieces[12]);
    assert(two[0] == pieces[9] && two[1] == pieces[10]);
}

/// The attributes of a card stand before what it shows.
proof fn lemma_card_attributes(stream: StreamView, video_url: Seq<char>, video_id: Seq<char>) -> (
    shown: Seq<char>)
    ensures
        card_text(stream, video_url, video_id)
            == "<a class=\"format-card\" href=\"#\" role=\"button\" data-endpoint=\""@ + escaped(
            "/download?"@ + form_text(
                card_pairs(video_url, id_text(stream.itag), stream.container, video_id),
            ),
        ) + "\" data-itag=\""@ + id_text(stream.itag) + "\" data-stream-type=\""@
            + data_type_text(lowered(stream.stream_type)) + "\" data-height=\""@ + height_text(
            stream.height,
        ) + "\" data-bitrate=\""@ + decimal_text(stream.bitrate as nat) + shown,
        shown.len() > 0,
        shown[0] == '"',
{
    let card = card_text(stream, video_url, video_id);
    let front = "<a class=\"format-card\" href=\"#\" role=\"button\" data-endpoint=\""@ + escaped(
        "/download?"@ + form_text(
            card_pairs(video_url, id_text(stream.itag), stream.container, video_id),
        ),
    ) + "\" data-itag=\""@ + id_text(stream.itag) + "\" data-stream-type=\""@ + data_type_text(
        lowered(stream.stream_type),
    ) + "\" data-height=\""@ + height_text(stream.height) + "\" data-bitrate=\""@ + decimal_text(
        stream.bitrate as nat,
    );
    reveal_strlit("\"><span class=\"format-itag\">");
    let shown = card.skip(front.len() as int);
    assert(card =~= front + shown);
    shown
}

/// What the script is told holds no quote.
proof fn lemma_no_quotes(stream: StreamView)
    ensures
        !data_type_text(lowered(stream.stream_type)).contains('"'),
        !height_text(stream.height).contains('"'),
        !decimal_text(stream.bitrate as nat).contains('"'),
{
    reveal_strlit("muxed");
    reveal_strlit("video");
    reveal_strlit("audio");
    lemma_decimal(stream.bitrate as nat);
    lemma_no_quote_in_digits(decimal_text(stream.bitrate as nat));
    if let Some(lines) = stream.height {
        lemma_decimal(lines as nat);
        lemma_no_quote_in_digits(height_text(stream.height));
    }
}

proof fn lemma_no_quote_in_digits(text: Seq<char>)
    requires
        all_digits(text),
    ensures
        !text.contains('"'),
{
}

proof fn lemma_attribute_literals()
    ensures
        "\" data-itag=\""@ == seq!['"'] + " data-itag="@ + seq!['"'],
        "\" data-stream-type=\""@ == seq!['"'] + " data-stream-type="@ + seq!['"'],
        "\" data-height=\""@ == seq!['"'] + " data-height="@ + seq!['"'],
        "\" data-bitrate=\""@ == seq!['"'] + " data-bitrate="@ + seq!['"'],
        !" data-itag="@.contains('"'),
        !" data-stream-type="@.contains('"'),
        !" data-height="@.contains('"'),
        !" data-bitrate="@.contains('"'),
{
    reveal_strlit("\" data-itag=\"");
    reveal_strlit("\" data-stream-type=\"");
    reveal_strlit("\" data-height=\"");
    reveal_strlit("\" data-bitrate=\"");
    reveal_strlit(" data-itag=");
    reveal_strlit(" data-stream-type=");
    reveal_strlit(" data-height=");
    reveal_strlit(" data-bitrate=");
    assert("\" data-itag=\""@ =~= seq!['"'] + " data-itag="@ + seq!['"']);
    assert("\" data-stream-type=\""@ =~= seq!['"'] + " data-stream-type="@ + seq!['"']);
    assert("\" data-height=\""@ =~= seq!['"'] + " data-height="@ + seq!['"']);
    assert("\" data-bitrate=\""@ =~= seq!['"'] + " data-bitrate="@ + seq!['"']);
}

/// A value in quotes and the name of what follows it are two pieces.
proof fn lemma_attribute(value: Seq<char>, name: Seq<char>, rest: Seq<char>)
    requires
        !value.contains('"'),
        !name.contains('"'),
    ensures
        split_char(value + (seq!['"'] + name + seq!['"']) + rest, '"') == seq![value, name]
            + split_char(rest, '"'),
{
    let behind = name + seq!['"'] + rest;
    splitting_cuts_at_the_first_separator(value, behind, '"');
    splitting_cuts_at_the_first_separator(name, rest, '"');
    assert(value + (seq!['"'] + name + seq!['"']) + rest =~= value + seq!['"'] + behind);
    assert(seq![value] + (seq![name] + split_char(rest, '"')) =~= seq![value, name] + split_char(
        rest,
        '"',
    ));
}

/// The start of a card is seven pieces.
proof fn lemma_card_front(rest: Seq<char>)
    ensures
        ({
            let pieces = split_char(
                "<a class=\"format-card\" href=\"#\" role=\"button\" data-endpoint=\""@ + rest,
                '"',
            );
            &&& pieces.len() == 7 + split_char(rest, '"').len()
            &&& pieces.skip(7) == split_char(rest, '"')
        }),
{
    reveal_strlit("<a class=\"format-card\" href=\"#\" role=\"button\" data-endpoint=\"");
    let front = "<a class=\"format-card\" href=\"#\" role=\"button\" data-endpoint=\""@;
    let text = front + rest;
    lemma_cut(text, 9);
    lemma_cut(text.skip(10), 11);
    assert(text.skip(10).skip(12) =~= text.skip(22));
    lemma_cut(text.skip(22), 6);
    assert(text.skip(22).skip(7) =~= text.skip(29));
    lemma_cut(text.skip(29), 1);
    assert(text.skip(29).skip(2) =~= text.skip(31));
    lemma_cut(text.skip(31), 6);
    assert(text.skip(31).skip(7) =~= text.skip(38));
    lemma_cut(text.skip(38), 6);
    assert(text.skip(38).skip(7) =~= text.skip(45));
    lemma_cut(text.skip(45), 15);
    assert(text.skip(45).skip(16) =~= rest);
    assert(split_char(text, '"').skip(7) =~= split_char(rest, '"'));
}

/// Where the first quote of a text stands, its first piece ends.
proof fn lemma_cut(text: Seq<char>, at: int)
    requires
        0 <= at < text.len(),
        text[at] == '"',
        forall|k: int| 0 <= k < at ==> text[k] != '"',
    ensures
        split_char(text, '"') == seq![text.take(at)] + split_char(text.skip(at + 1), '"'),
{
    assert(text =~= text.take(at) + seq!['"'] + text.skip(at + 1));
    splitting_cuts_at_the_first_separator(text.take(at), text.skip(at + 1), '"');
}

/// A card shows id, quality, container and bit rate of its stream, each where its class says so.
pub proof fn a_card_shows_its_stream(
    stream: StreamView,
    video_url: Seq<char>,
    video_id: Seq<char>,
    itag: Seq<char>,
)
    requires
        stream.itag == Some(itag),
    ensures
        ({
            let card = card_text(stream, video_url, video_id);
            &&& contains_text(card, "<span class=\"format-itag\">"@ + itag + "</span>"@)
            &&& contains_text(
                card,
                "<span class=\"format-quality\">"@ + escaped(stream.quality) + "</span>"@,
            )
            &&& contains_text(
                card,
                "<span class=\"format-codecs\">"@ + escaped(stream.container) + "</span>"@,
            )
            &&& contains_text(
                card,
                "<span class=\"format-meta\">"@ + escaped(bitrate_text(stream.bitrate as nat))
                    + "</span>"@,
            )
            &&& ends_with(card, "<span class=\"format-status\"></span></a>"@)
        }),
{
    let quality = escaped(stream.quality);
    let codecs = escaped(stream.container);
    let rate = escaped(bitrate_text(stream.bitrate as nat));
    let close = "</span>"@;
    let sep = "<span class=\"format-sep\">|</span>"@;
    let itag_mark = "<span class=\"format-itag\">"@;
    let quality_mark = "<span class=\"format-quality\">"@;
    let codecs_mark = "<span class=\"format-codecs\">"@;
    let rate_mark = "<span class=\"format-meta\">"@;
    let end = "<span class=\"format-status\"></span></a>"@;
    let front = "<a class=\"format-card\" href=\"#\" role=\"button\" data-endpoint=\""@ + escaped(
        "/download?"@ + form_text(card_pairs(video_url, itag, stream.container, video_id)),
    ) + "\" data-itag=\""@ + itag + "\" data-stream-type=\""@ + data_type_text(
        lowered(stream.stream_type),
    ) + "\" data-height=\""@ + height_text(stream.height) + "\" data-bitrate=\""@ + decimal_text(
        stream.bitrate as nat,
    );
    lemma_shown_literals();
    let one = front + "\">"@;
    lemma_last_two(front, "\">"@, itag_mark);
    lemma_item(one, itag_mark, itag, close, sep, quality_mark);
    let two = one + (itag_mark + itag + close) + sep;
    lemma_item(two, quality_mark, quality, close, sep, codecs_mark);
    let three = two + (quality_mark + quality + close) + sep;
    lemma_item(three, codecs_mark, codecs, close, sep, rate_mark);
    let four = three + (codecs_mark + codecs + close) + sep;
    lemma_item(four, rate_mark, rate, close, Seq::empty(), end);
    assert(close + Seq::<char>::empty() =~= close);
    let card = four + (rate_mark + rate + close) + Seq::empty() + end;
    assert(card_text(stream, video_url, video_id) == card);
    lemma_stands_inside(one, itag_mark + itag + close, sep);
    lemma_stands_inside(two, quality_mark + quality + close, sep);
    lemma_stands_inside(three, codecs_mark + codecs + close, sep);
    lemma_stands_inside(four, rate_mark + rate + close, Seq::empty());
    let last = four + (rate_mark + rate + close) + Seq::empty();
    lemma_still_stands(two, quality_mark + quality + close + sep, itag_mark + itag + close);
    assert(two + (quality_mark + quality + close + sep) =~= three);
    lemma_still_stands(three, codecs_mark + codecs + close + sep, itag_mark + itag + close);
    lemma_still_stands(three, codecs_mark + codecs + close + sep, quality_mark + quality + close);
    assert(three + (codecs_mark + codecs + close + sep) =~= four);
    lemma_still_stands(four, rate_mark + rate + close, itag_mark + itag + close);
    lemma_still_stands(four, rate_mark + rate + close, quality_mark + quality + close);
    lemma_still_stands(four, rate_mark + rate + close, codecs_mark + codecs + close);
    assert(four + (rate_mark + rate + close) =~= last);
    lemma_still_stands(last, end, itag_mark + itag + close);
    lemma_still_stands(last, end, quality_mark + quality + close);
    lemma_still_stands(last, end, codecs_mark + codecs + close);
    lemma_still_stands(last, end, rate_mark + rate + close);
    assert(card.subrange(card.len() - end.len(), card.len() as int) =~= end);
}

/// What is written between the parts of a card closes one and opens the next.
proof fn lemma_shown_literals()
    ensures
        "\"><span class=\"format-itag\">"@ == "\">"@ + "<span class=\"format-itag\">"@,
        "</span><span class=\"format-sep\">|</span><span class=\"format-quality\">"@ == "</span>"@
            + "<span class=\"format-sep\">|</span>"@ + "<span class=\"format-quality\">"@,
        "</span><span class=\"format-sep\">|</span><span class=\"format-codecs\">"@ == "</span>"@
            + "<span class=\"format-sep\">|</span>"@ + "<span class=\"format-codecs\">"@,
        "</span><span class=\"format-sep\">|</span><span class=\"format-meta\">"@ == "</span>"@
            + "<span class=\"format-sep\">|</span>"@ + "<span class=\"format-meta\">"@,
        "</span><span class=\"format-status\"></span></a>"@ == "</span>"@
            + "<span class=\"format-status\"></span></a>"@,
{
    reveal_strlit("</span>");
    reveal_strlit("<span class=\"format-sep\">|</span>");
    assert("\"><span class=\"format-itag\">"@ == "\">"@ + "<span class=\"format-itag\">"@) by {
        reveal_strlit("\"><span class=\"format-itag\">");
        reveal_strlit("\">");
        reveal_strlit("<span class=\"format-itag\">");
    }
    assert("</span><span class=\"format-sep\">|</span><span class=\"format-quality\">"@
        == "</span>"@ + "<span class=\"format-sep\">|</span>"@
        + "<span class=\"format-quality\">"@) by {
        reveal_strlit("</span><span class=\"format-sep\">|</span><span class=\"format-quality\">");
        reveal_strlit("<span class=\"format-quality\">");
    }
    assert("</span><span class=\"format-sep\">|</span><span class=\"format-codecs\">"@
        == "</span>"@ + "<span class=\"format-sep\">|</span>"@
        + "<span class=\"format-codecs\">"@) by {
        reveal_strlit("</span><span class=\"format-sep\">|</span><span class=\"format-codecs\">");
        reveal_strlit("<span class=\"format-codecs\">");
    }
    assert("</span><span class=\"format-sep\">|</span><span class=\"format-meta\">"@ == "</span>"@
        + "<span class=\"format-sep\">|</span>"@ + "<span class=\"format-meta\">"@) by {
        reveal_strlit("</span><span class=\"format-sep\">|</span><span class=\"format-meta\">");
        reveal_strlit("<span class=\"format-meta\">");
    }
    assert("</span><span class=\"format-status\"></span></a>"@ == "</span>"@
        + "<span class=\"format-status\"></span></a>"@) by {
        reveal_strlit("</span><span class=\"format-status\"></span></a>");
        reveal_strlit("<span class=\"format-status\"></span></a>");
    }
}

proof fn lemma_shown(text: Seq<char>, at: int, part: Seq<char>)
    requires
        0 <= at,
        at + part.len() <= text.len(),
        forall|k: int| 0 <= k < part.len() ==> #[trigger] part[k] == text[at + k],
    ensures
        contains_text(text, part),
{
    assert(text.subrange(at, at + part.len()) =~= part);
    assert(matches_at(text, part, at));
}

/// Of the streams under one id, the card is that of the first with the highest bit rate.
pub proof fn the_first_of_the_best_gets_the_card(streams: Seq<StreamView>, k: int)
    requires
        0 <= k < streams.len(),
        streams[k].itag is Some,
        forall|j: int|
            0 <= j < streams.len() && (#[trigger] streams[j]).itag == streams[k].itag
                ==> streams[j].bitrate <= streams[k].bitrate,
        forall|j: int|
            0 <= j < k && (#[trigger] streams[j]).itag == streams[k].itag ==> streams[j].bitrate
                < streams[k].bitrate,
    ensures
        card_order(streams).contains(k),
{
    let order = card_order(streams);
    card_order_is_the_one(streams, order);
    let chosen = |k: int| is_best(streams, k);
    assert(is_best(streams, k));
    assert(order.contains(k) <==> chosen(k));
}

/// Only streams with an id have a card, and cards with the same bit rate are in the order of their
/// ids.
pub proof fn equal_cards_are_ordered_by_id(streams: Seq<StreamView>, i: int, j: int)
    requires
        0 <= i < j < card_order(streams).len(),
    ensures
        0 <= card_order(streams)[i] < streams.len(),
        streams[card_order(streams)[i]].itag is Some,
        streams[card_order(streams)[j]].itag is Some,
        streams[card_order(streams)[i]].bitrate == streams[card_order(streams)[j]].bitrate
            ==> text_before(
            streams[card_order(streams)[i]].itag->0,
            streams[card_order(streams)[j]].itag->0,
        ),
{
    let order = card_order(streams);
    card_order_is_the_one(streams, order);
    let chosen = |k: int| is_best(streams, k);
    let before = |left: int, right: int| card_before(streams, left, right);
    assert(order.contains(order[i]) <==> chosen(order[i]));
    assert(order.contains(order[j]) <==> chosen(order[j]));
    assert(before(order[i], order[j]));
    if streams[order[i]].itag == streams[order[j]].itag {
        each_id_has_one_card(streams, order[i]);
    }
}

/// The cards of a list stand one after the other, in its order.
pub proof fn cards_stand_one_after_the_other(
    streams: Seq<StreamView>,
    left: Seq<int>,
    right: Seq<int>,
    video_url: Seq<char>,
    video_id: Seq<char>,
)
    ensures
        cards_text(streams, left + right, video_url, video_id) == cards_text(
            streams,
            left,
            video_url,
            video_id,
        ) + cards_text(streams, right, video_url, video_id),
        left.len() == 0 ==> cards_text(streams, left, video_url, video_id).len() == 0,
        left.len() == 1 ==> cards_text(streams, left, video_url, video_id) == card_text(
            streams[left[0]],
            video_url,
            video_id,
        ),
    decreases right.len(),
{
    if right.len() == 0 {
        assert(left + right =~= left);
        assert(cards_text(streams, left, video_url, video_id) + Seq::<char>::empty()
            =~= cards_text(streams, left, video_url, video_id));
    } else {
        cards_stand_one_after_the_other(streams, left, right.drop_last(), video_url, video_id);
        assert((left + right).drop_last() =~= left + right.drop_last());
        assert((left + right).last() == right.last());
        assert(cards_text(streams, left + right, video_url, video_id) =~= cards_text(
            streams,
            left,
            video_url,
            video_id,
        ) + cards_text(streams, right, video_url, video_id));
    }
    if left.len() == 1 {
        assert(left.drop_last().len() == 0);
        assert(left.last() == left[0]);
        assert(cards_text(streams, left.drop_last(), video_url, video_id) =~= Seq::empty());
        assert(cards_text(streams, left, video_url, video_id) =~= card_text(
            streams[left[0]],
            video_url,
            video_id,
        ));
    }
}

/// The list of the formats holds the cards, the filter before them, exactly if some stream has an
/// id; else it says that there are none.
pub proof fn a_list_holds_its_cards(
    streams: Seq<StreamView>,
    video_url: Seq<char>,
    video_id: Seq<char>,
)
    ensures
        ({
            let text = format_list_text(streams, video_url, video_id);
            let cards = "<div class=\"format-grid\">"@ + cards_text(
                streams,
                card_order(streams),
                video_url,
                video_id,
            ) + "</div>"@;
            &&& starts_with(text, "<div class=\"format-list\">"@)
            &&& (exists|k: int| 0 <= k < streams.len() && (#[trigger] streams[k]).itag is Some)
                ==> contains_text(text, FORMAT_FILTER_HTML@ + cards)
            &&& (forall|k: int| 0 <= k < streams.len() ==> (#[trigger] streams[k]).itag is None)
                ==> contains_text(text, "<p class=\"muted\">No streams.</p>"@)
        }),
{
    let text = format_list_text(streams, video_url, video_id);
    if some_id(streams) {
        let front = "<div class=\"format-list\"><h3>Available formats</h3>"@;
        let grid = "<div class=\"format-grid\">"@;
        let cards = cards_text(streams, card_order(streams), video_url, video_id);
        assert("</div></div>"@ =~= "</div>"@ + "</div>"@) by {
            reveal_strlit("</div>");
            reveal_strlit("</div></div>");
        }
        lemma_last_two(front + FORMAT_FILTER_HTML@ + grid + cards, "</div>"@, "</div>"@);
        lemma_last_three(front + FORMAT_FILTER_HTML@, grid, cards, "</div>"@);
        lemma_last_two(front, FORMAT_FILTER_HTML@, grid + cards + "</div>"@);
        let whole = FORMAT_FILTER_HTML@ + (grid + cards + "</div>"@);
        assert(text == front + whole + "</div>"@);
        lemma_stands_inside(front, whole, "</div>"@);
        reveal_strlit("<div class=\"format-list\"><h3>Available formats</h3>");
        reveal_strlit("<div class=\"format-list\">");
        assert(text.subrange(0, 25) =~= front.subrange(0, 25));
        assert(front.subrange(0, 25) =~= "<div class=\"format-list\">"@);
    } else {
        reveal_strlit("<div class=\"format-list\"><h3>Available formats</h3><p class=\"muted\">No streams.</p></div>");
        reveal_strlit("<p class=\"muted\">No streams.</p>");
        reveal_strlit("<div class=\"format-list\">");
        assert(text.subrange(0, 25) =~= "<div class=\"format-list\">"@);
        lemma_shown(text, 51, "<p class=\"muted\">No streams.</p>"@);
    }
}

/// Where there are no formats, the page says why: with the error, if there is one that says
/// something, with where the tool has to be if it says nothing, and else that there is nothing to
/// download.
pub proof fn an_empty_list_tells_the_error(before: Seq<char>, error: Seq<char>, behind: Seq<char>)
    requires
        forall|i: int| 0 <= i < before.len() ==> is_space(#[trigger] before[i]),
        forall|i: int| 0 <= i < behind.len() ==> is_space(#[trigger] behind[i]),
        error.len() > 0 ==> !is_space(error[0]) && !is_space(error.last()),
    ensures
        contains_text(empty_list_text(None), "No downloadable streams."@),
        error.len() > 0 ==> contains_text(
            empty_list_text(Some(before + error + behind)),
            "Formats could not be loaded: "@ + escaped(error) + "</p>"@,
        ),
        error.len() == 0 ==> contains_text(
            empty_list_text(Some(before + error + behind)),
            "Ensure yt-dlp.exe is in the same folder as downloader.exe."@,
        ),
{
    trimming_takes_off_white_space(before, error, behind);
    let front =
        "<div class=\"format-list\"><h3>Available formats</h3><p class=\"muted\">"@;
    let back = "</p></div>"@;
    reveal_strlit("</p></div>");
    reveal_strlit("</p>");
    reveal_strlit("</div>");
    assert(back =~= "</p>"@ + "</div>"@);
    let told = "Formats could not be loaded: "@ + escaped(error);
    lemma_stands_inside(front, "No downloadable streams."@, back);
    lemma_stands_inside(front, told + "</p>"@, "</div>"@);
    assert(front + told + back =~= front + (told + "</p>"@) + "</div>"@);
    lemma_stands_inside(
        front,
        "Ensure yt-dlp.exe is in the same folder as downloader.exe."@,
        back,
    );
}



} // verus!
