//! The formats that the download tool lists for a video, and the streams they are offered as.

use crate::numbers::{decimal, decimal_text};
use crate::text::{optional, same_text};
use vstd::prelude::*;

verus! {

/// The total bit rate of a format, which its source states in kilobits per second, as integers.
#[derive(Clone, Copy)]
pub struct Rate {
    /// The stated rate is above zero.
    pub positive: bool,
    /// Whole kilobits per second.
    pub kbps: u32,
    /// Whole bits per second.
    pub bps: u64,
}

/// A format as the download tool describes it.
pub struct YtdlpFormat {
    pub format_id: Option<String>,
    pub ext: Option<String>,
    pub height: Option<u32>,
    pub tbr: Option<Rate>,
    pub vcodec: Option<String>,
    pub acodec: Option<String>,
}

/// A stream offered for download.
#[derive(Debug)]
pub struct StreamInfo {
    /// The id of the format, such as `137`, `251` or `248-sr`.
    pub itag: Option<String>,
    pub container: String,
    pub quality: String,
    pub height: Option<u32>,
    pub bitrate: u64,
    pub stream_type: String,
    pub has_video: bool,
    pub has_audio: bool,
}

/// What a format says, with its texts as characters.
#[verifier::ext_equal]
pub struct FormatView {
    pub format_id: Option<Seq<char>>,
    pub ext: Option<Seq<char>>,
    pub height: Option<u32>,
    pub tbr: Option<Rate>,
    pub vcodec: Option<Seq<char>>,
    pub acodec: Option<Seq<char>>,
}

impl View for YtdlpFormat {
    type V = FormatView;

    open spec fn view(&self) -> FormatView {
        FormatView {
            format_id: optional(self.format_id),
            ext: optional(self.ext),
            height: self.height,
            tbr: self.tbr,
            vcodec: optional(self.vcodec),
            acodec: optional(self.acodec),
        }
    }
}

/// What a stream says, with its texts as characters.
#[verifier::ext_equal]
pub struct StreamView {
    pub itag: Option<Seq<char>>,
    pub container: Seq<char>,
    pub quality: Seq<char>,
    pub height: Option<u32>,
    pub bitrate: u64,
    pub stream_type: Seq<char>,
    pub has_video: bool,
    pub has_audio: bool,
}

impl View for StreamInfo {
    type V = StreamView;

    open spec fn view(&self) -> StreamView {
        StreamView {
            itag: optional(self.itag),
            container: self.container@,
            quality: self.quality@,
            height: self.height,
            bitrate: self.bitrate,
            stream_type: self.stream_type@,
            has_video: self.has_video,
            has_audio: self.has_audio,
        }
    }
}

impl Clone for StreamInfo {
    fn clone(&self) -> (copy: Self)
        ensures
            copy@ == self@,
    {
        StreamInfo {
            itag: match &self.itag {
                Some(id) => Some(id.clone()),
                None => None,
            },
            container: self.container.clone(),
            quality: self.quality.clone(),
            height: self.height,
            bitrate: self.bitrate,
            stream_type: self.stream_type.clone(),
            has_video: self.has_video,
            has_audio: self.has_audio,
        }
    }
}

/// A video codec is named, and it is one of moving pictures.
pub open spec fn carries_video(vcodec: Option<Seq<char>>) -> bool {
    match vcodec {
        Some(codec) => codec != "none"@ && codec.len() > 0 && codec != "images"@,
        None => false,
    }
}

/// An audio codec is named.
pub open spec fn carries_audio(acodec: Option<Seq<char>>) -> bool {
    match acodec {
        Some(codec) => codec != "none"@ && codec.len() > 0,
        None => false,
    }
}

/// The name of a kind of stream.
pub open spec fn type_text(has_video: bool, has_audio: bool) -> Seq<char> {
    if has_video && has_audio {
        "muxed"@
    } else if has_video {
        "video"@
    } else if has_audio {
        "audio"@
    } else {
        "unknown"@
    }
}

/// What is shown as the quality of a format: its height, else its bit rate, else that it is audio.
pub open spec fn quality_text(format: FormatView) -> Seq<char> {
    if format.height is Some && format.height->0 > 0 {
        decimal_text(format.height->0 as nat) + "p"@
    } else if format.tbr is Some && format.tbr->0.positive {
        decimal_text(format.tbr->0.kbps as nat) + "kbps"@
    } else if format.vcodec is None || format.vcodec->0 == "none"@ {
        "audio"@
    } else {
        "unknown"@
    }
}

/// The container of a format.
pub open spec fn container_text(ext: Option<Seq<char>>) -> Seq<char> {
    match ext {
        Some(inner) => inner,
        None => "unknown"@,
    }
}

/// The stream that a format is offered as. Image tiles are not offered, nor is anything without
/// video and audio.
pub open spec fn stream_of(format: FormatView) -> Option<StreamView> {
    let has_video = carries_video(format.vcodec);
    let has_audio = carries_audio(format.acodec);
    if container_text(format.ext) == "mhtml"@ || (!has_video && !has_audio) {
        None
    } else {
        Some(
            StreamView {
                itag: if format.format_id is Some && format.format_id->0.len() > 0 {
                    format.format_id
                } else {
                    None
                },
                container: container_text(format.ext),
                quality: quality_text(format),
                height: format.height,
                bitrate: match format.tbr {
                    Some(rate) => rate.bps,
                    None => 0,
                },
                stream_type: type_text(has_video, has_audio),
                has_video,
                has_audio,
            },
        )
    }
}

/// The streams that a list of formats is offered as, in the order of the formats.
pub open spec fn streams_of(formats: Seq<FormatView>) -> Seq<StreamView>
    decreases formats.len(),
{
    if formats.len() == 0 {
        Seq::empty()
    } else {
        match stream_of(formats.last()) {
            Some(stream) => streams_of(formats.drop_last()).push(stream),
            None => streams_of(formats.drop_last()),
        }
    }
}

/// What each format of a list says.
pub open spec fn format_views(formats: Seq<YtdlpFormat>) -> Seq<FormatView> {
    formats.map_values(|format: YtdlpFormat| format@)
}

/// What each stream of a list says.
pub open spec fn stream_views(streams: Seq<StreamInfo>) -> Seq<StreamView> {
    streams.map_values(|stream: StreamInfo| stream@)
}

/// The quality of a format, for display.
pub fn format_quality_ytdlp(f: &YtdlpFormat) -> (quality: String)
    ensures
        quality@ == quality_text(f@),
{
    if let Some(height) = f.height {
        if height > 0 {
            let mut quality = decimal(height as u64);
            quality.append("p");
            return quality;
        }
    }
    if let Some(rate) = f.tbr {
        if rate.positive {
            let mut quality = decimal(rate.kbps as u64);
            quality.append("kbps");
            return quality;
        }
    }
    let no_video = match &f.vcodec {
        Some(codec) => same_text(codec.as_str(), "none"),
        None => true,
    };
    if no_video {
        "audio".to_owned()
    } else {
        "unknown".to_owned()
    }
}

/// The kind of stream that a format holds, and whether it has video and audio.
pub fn stream_type_ytdlp(f: &YtdlpFormat) -> (kind: (String, bool, bool))
    ensures
        kind.0@ == type_text(kind.1, kind.2),
        kind.1 == carries_video(f@.vcodec),
        kind.2 == carries_audio(f@.acodec),
{
    let has_video = match &f.vcodec {
        Some(codec) => !same_text(codec.as_str(), "none") && !codec.as_str().is_empty() && !same_text(
            codec.as_str(),
            "images",
        ),
        None => false,
    };
    let has_audio = match &f.acodec {
        Some(codec) => !same_text(codec.as_str(), "none") && !codec.as_str().is_empty(),
        None => false,
    };
    let kind = if has_video && has_audio {
        "muxed"
    } else if has_video {
        "video"
    } else if has_audio {
        "audio"
    } else {
        "unknown"
    };
    (kind.to_owned(), has_video, has_audio)
}

/// The stream that a format is offered as.
pub fn stream_from_format(f: &YtdlpFormat) -> (stream: Option<StreamInfo>)
    ensures
        stream_of(f@) == (match stream {
            Some(inner) => Some(inner@),
            None => None,
        }),
        stream is None <==> f@.ext == Some("mhtml"@) || (!names_codec(
            f@.vcodec,
            set![""@, "none"@, "images"@],
        ) && !names_codec(f@.acodec, set![""@, "none"@])),
{
    proof {
        a_format_is_offered_iff_it_is_media(f@);
    }
    let container = match &f.ext {
        Some(ext) => ext.clone(),
        None => "unknown".to_owned(),
    };
    if same_text(container.as_str(), "mhtml") {
        return None;
    }
    let (stream_type, has_video, has_audio) = stream_type_ytdlp(f);
    if !has_video && !has_audio {
        return None;
    }
    let quality = format_quality_ytdlp(f);
    let bitrate: u64 = match f.tbr {
        Some(rate) => rate.bps,
        None => 0,
    };
    let itag = match &f.format_id {
        Some(id) => if id.as_str().is_empty() {
            None
        } else {
            Some(id.clone())
        },
        None => None,
    };
    Some(
        StreamInfo {
            itag,
            container,
            quality,
            height: f.height,
            bitrate,
            stream_type,
            has_video,
            has_audio,
        },
    )
}

/// The streams that the listed formats are offered as. No list is as good as an empty one.
pub fn streams_from_formats(formats: &Option<Vec<YtdlpFormat>>) -> (streams: Vec<StreamInfo>)
    ensures
        stream_views(streams@) == streams_of(
            match *formats {
                Some(list) => format_views(list@),
                None => Seq::empty(),
            },
        ),
{
    let mut streams: Vec<StreamInfo> = Vec::new();
    match formats {
        Some(list) => {
            let ghost all = format_views(list@);
            let mut i: usize = 0;
            assert(stream_views(streams@) =~= streams_of(all.take(0)));
            while i < list.len()
                invariant
                    i <= list.len(),
                    all == format_views(list@),
                    stream_views(streams@) == streams_of(all.take(i as int)),
                decreases list.len() - i,
            {
                let ghost before = stream_views(streams@);
                assert(all.take(i + 1).drop_last() =~= all.take(i as int));
                assert(all.take(i + 1).last() == list@[i as int]@);
                if let Some(stream) = stream_from_format(&list[i]) {
                    streams.push(stream);
                    assert(stream_views(streams@) =~= before.push(stream@));
                }
                i = i + 1;
            }
            assert(all.take(i as int) =~= all);
        },
        None => {
            assert(stream_views(streams@) =~= Seq::empty());
        },
    }
    streams
}

/// Every stream offered has video or audio, is named after what it has, is no image tile, and
/// has an id that is not empty, if it has one.
pub proof fn offered_streams_are_media(formats: Seq<FormatView>, i: int)
    requires
        0 <= i < streams_of(formats).len(),
    ensures
        ({
            let stream = streams_of(formats)[i];
            &&& stream.has_video || stream.has_audio
            &&& stream.stream_type == type_text(stream.has_video, stream.has_audio)
            &&& stream.container != "mhtml"@
            &&& stream.itag is Some ==> stream.itag->0.len() > 0
        }),
    decreases formats.len(),
{
    let earlier = streams_of(formats.drop_last());
    if i < earlier.len() {
        offered_streams_are_media(formats.drop_last(), i);
    }
}

/// Every stream offered comes from a listed format, and every listed format that makes a stream
/// is offered.
pub proof fn offered_streams_are_the_listed_ones(formats: Seq<FormatView>, stream: StreamView)
    ensures
        streams_of(formats).contains(stream) <==> exists|k: int|
            0 <= k < formats.len() && stream_of(#[trigger] formats[k]) == Some(stream),
    decreases formats.len(),
{
    if formats.len() > 0 {
        let earlier = formats.drop_last();
        offered_streams_are_the_listed_ones(earlier, stream);
        let offered = streams_of(formats);
        if offered.contains(stream) {
            let at = offered.index_of(stream);
            if at < streams_of(earlier).len() {
                assert(streams_of(earlier)[at] == stream);
                let k = choose|k: int|
                    0 <= k < earlier.len() && stream_of(#[trigger] earlier[k]) == Some(stream);
                assert(formats[k] == earlier[k]);
            } else {
                assert(stream_of(formats[formats.len() - 1]) == Some(stream));
            }
        }
        if exists|k: int|
            0 <= k < formats.len() && stream_of(#[trigger] formats[k]) == Some(stream) {
            let k = choose|k: int|
                0 <= k < formats.len() && stream_of(#[trigger] formats[k]) == Some(stream);
            if k < formats.len() - 1 {
                assert(earlier[k] == formats[k]);
                let at = streams_of(earlier).index_of(stream);
                assert(offered[at] == stream);
            } else {
                assert(offered.last() == stream);
            }
        }
    }
}

/// A codec is usable: it is named, and the name is none of the words that stand for no stream.
pub open spec fn names_codec(codec: Option<Seq<char>>, placeholders: Set<Seq<char>>) -> bool {
    codec is Some && !placeholders.contains(codec->0)
}

/// A listed format is offered exactly if it is no image tile and has a usable video or audio codec.
/// What is offered has video and audio exactly as the codecs say, and is `muxed` where it has both.
pub proof fn a_format_is_offered_iff_it_is_media(format: FormatView)
    ensures
        ({
            let video = names_codec(format.vcodec, set![""@, "none"@, "images"@]);
            let audio = names_codec(format.acodec, set![""@, "none"@]);
            let offered = stream_of(format);
            &&& offered is None <==> format.ext == Some("mhtml"@) || (!video && !audio)
            &&& offered matches Some(stream) ==> {
                &&& stream.has_video == video
                &&& stream.has_audio == audio
                &&& video && audio ==> stream.stream_type == "muxed"@
                &&& video && !audio ==> stream.stream_type == "video"@
                &&& !video && audio ==> stream.stream_type == "audio"@
            }
        }),
{
    reveal_strlit("");
    reveal_strlit("unknown");
    reveal_strlit("mhtml");
    assert("unknown"@.len() == 7 && "mhtml"@.len() == 5);
    if format.vcodec is Some && format.vcodec->0.len() == 0 {
        assert(format.vcodec->0 =~= ""@);
    }
    if format.acodec is Some && format.acodec->0.len() == 0 {
        assert(format.acodec->0 =~= ""@);
    }
}

/// What is offered keeps what the format says: its id unless that is empty, its container, its
/// height and its bit rate.
pub proof fn an_offered_stream_keeps_its_format(format: FormatView)
    requires
        stream_of(format) is Some,
    ensures
        ({
            let stream = stream_of(format)->0;
            &&& format.format_id matches Some(id) ==> id.len() > 0 ==> stream.itag == Some(id)
            &&& format.format_id is None ==> stream.itag is None
            &&& format.format_id == Some(""@) ==> stream.itag is None
            &&& format.ext matches Some(ext) ==> stream.container == ext
            &&& format.ext is None ==> stream.container == "unknown"@
            &&& stream.height == format.height
            &&& format.tbr matches Some(rate) ==> stream.bitrate == rate.bps
            &&& format.tbr is None ==> stream.bitrate == 0
        }),
{
    reveal_strlit("");
}

/// The quality of what is offered is its height where that is above zero, whatever else is said of
/// it; else its bit rate where that is above zero; else `audio` for a format without a video codec
/// and `unknown` for any other.
pub proof fn quality_is_height_then_rate(format: FormatView)
    ensures
        ({
            let shown = quality_text(format);
            let rated = format.tbr is Some && format.tbr->0.positive;
            &&& format.height matches Some(lines) ==> lines > 0 ==> shown == decimal_text(
                lines as nat,
            ) + "p"@
            &&& format.height is None || format.height == Some(0u32) ==> {
                &&& rated ==> shown == decimal_text(format.tbr->0.kbps as nat) + "kbps"@
                &&& !rated && (format.vcodec is None || format.vcodec == Some("none"@)) ==> shown
                    == "audio"@
                &&& !rated && format.vcodec is Some && format.vcodec != Some("none"@) ==> shown
                    == "unknown"@
            }
        }),
{
}

/// Two lists of formats after each other are offered as their streams after each other, and a
/// single format as its stream: no format stands in for another, and none changes its place.
pub proof fn formats_are_offered_one_by_one(left: Seq<FormatView>, right: Seq<FormatView>)
    ensures
        streams_of(left + right) == streams_of(left) + streams_of(right),
        left.len() == 1 ==> streams_of(left) == (match stream_of(left[0]) {
            Some(stream) => seq![stream],
            None => Seq::empty(),
        }),
        left.len() == 0 ==> streams_of(left).len() == 0,
    decreases right.len(),
{
    if right.len() == 0 {
        assert(left + right =~= left);
        assert(streams_of(left) + streams_of(right) =~= streams_of(left));
    } else {
        formats_are_offered_one_by_one(left, right.drop_last());
        assert((left + right).drop_last() =~= left + right.drop_last());
        assert((left + right).last() == right.last());
        assert(streams_of(left + right) =~= streams_of(left) + streams_of(right));
    }
    if left.len() == 1 {
        assert(left.drop_last() =~= Seq::empty());
        assert(streams_of(left.drop_last()) =~= Seq::empty());
        assert(streams_of(left) =~= (match stream_of(left[0]) {
            Some(stream) => seq![stream],
            None => Seq::empty(),
        }));
    }
}



} // verus!
