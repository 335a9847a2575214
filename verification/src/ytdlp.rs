//! Running the download tool: what it is told, and what its answers mean.

use crate::files::{download_name, extension_from_format, extension_text, find_format};
use crate::files::{format_index, output_file_name, VideoFormat};
use crate::input::{normalise_input, normalised};
use crate::numbers::{decimal, decimal_text, signed_decimal, signed_text};
use crate::text::{contains_text, lemma_stands_inside, lines, push_text, push_texts, text_lines};
use crate::text::{trim_text, trimmed, two_texts, views};
use crate::unicode::{decode, decoded};
use std::path::PathBuf;
use vstd::prelude::*;

verus! {

/// Why something could not be fetched. Where a path is told, it is told as it is shown: quoted.
#[derive(Debug)]
pub enum YtdlError {
    /// The video site could not be asked.
    RustyYtdl(String),
    /// The file system refused something.
    Io(String),
    /// There is no download tool at this path.
    YtdlpNotFound(String),
    /// The download tool could not be fetched, or its answer not understood.
    CliDiscovery(String),
    /// The video has no format with this number.
    FormatNotFound(u64),
    /// The download tool failed.
    YtdlpCliFailed { code: Option<i32>, message: String },
    /// The download tool could not be run.
    CliSpawn(String),
    /// The download tool left no file at this path.
    MissingOutput(String),
}

/// Why something could not be fetched.
pub enum ErrorView {
    RustyYtdl(Seq<char>),
    Io(Seq<char>),
    YtdlpNotFound(Seq<char>),
    CliDiscovery(Seq<char>),
    FormatNotFound(u64),
    YtdlpCliFailed { code: Option<i32>, message: Seq<char> },
    CliSpawn(Seq<char>),
    MissingOutput(Seq<char>),
}

impl View for YtdlError {
    type V = ErrorView;

    open spec fn view(&self) -> ErrorView {
        match *self {
            YtdlError::RustyYtdl(text) => ErrorView::RustyYtdl(text@),
            YtdlError::Io(text) => ErrorView::Io(text@),
            YtdlError::YtdlpNotFound(path) => ErrorView::YtdlpNotFound(path@),
            YtdlError::CliDiscovery(text) => ErrorView::CliDiscovery(text@),
            YtdlError::FormatNotFound(itag) => ErrorView::FormatNotFound(itag),
            YtdlError::YtdlpCliFailed { code, message } => ErrorView::YtdlpCliFailed {
                code,
                message: message@,
            },
            YtdlError::CliSpawn(text) => ErrorView::CliSpawn(text@),
            YtdlError::MissingOutput(path) => ErrorView::MissingOutput(path@),
        }
    }
}

/// An exit code, as it is shown.
pub open spec fn code_text(code: Option<i32>) -> Seq<char> {
    match code {
        Some(number) => "Some("@ + signed_text(number as int) + ")"@,
        None => "None"@,
    }
}

/// An exit code, as it is shown.
fn show_code(code: Option<i32>) -> (text: String)
    ensures
        text@ == code_text(code),
{
    match code {
        Some(number) => {
            let mut text = "Some(".to_owned();
            let digits = signed_decimal(number);
            text.append(digits.as_str());
            text.append(")");
            text
        },
        None => "None".to_owned(),
    }
}

/// What an error says.
pub open spec fn error_text(error: ErrorView) -> Seq<char> {
    match error {
        ErrorView::RustyYtdl(text) => "rusty_ytdl error: "@ + text,
        ErrorView::Io(text) => "filesystem error: "@ + text,
        ErrorView::YtdlpNotFound(path) => "yt-dlp not found at "@ + path
            + " (place yt-dlp.exe in same folder as downloader.exe)"@,
        ErrorView::CliDiscovery(text) => "yt-dlp discovery/parse failed: "@ + text,
        ErrorView::FormatNotFound(itag) => "requested format with itag "@ + decimal_text(
            itag as nat,
        ) + " not found"@,
        ErrorView::YtdlpCliFailed { code, message } => "yt-dlp exited with status "@ + code_text(
            code,
        ) + ": "@ + message,
        ErrorView::CliSpawn(text) => "failed to spawn yt-dlp: "@ + text,
        ErrorView::MissingOutput(path) => "expected output missing at "@ + path,
    }
}

impl YtdlError {
    /// What the error says.
    pub fn message(&self) -> (text: String)
        ensures
            text@ == error_text(self@),
    {
        match self {
            YtdlError::RustyYtdl(inner) => two_texts("rusty_ytdl error: ", inner.as_str()),
            YtdlError::Io(inner) => two_texts("filesystem error: ", inner.as_str()),
            YtdlError::YtdlpNotFound(path) => {
                let mut text = two_texts("yt-dlp not found at ", path.as_str());
                text.append(" (place yt-dlp.exe in same folder as downloader.exe)");
                text
            },
            YtdlError::CliDiscovery(inner) => two_texts(
                "yt-dlp discovery/parse failed: ",
                inner.as_str(),
            ),
            YtdlError::FormatNotFound(itag) => {
                let digits = decimal(*itag);
                let mut text = two_texts("requested format with itag ", digits.as_str());
                text.append(" not found");
                text
            },
            YtdlError::YtdlpCliFailed { code, message } => {
                let shown = show_code(*code);
                let mut text = two_texts("yt-dlp exited with status ", shown.as_str());
                text.append(": ");
                text.append(message.as_str());
                text
            },
            YtdlError::CliSpawn(inner) => two_texts("failed to spawn yt-dlp: ", inner.as_str()),
            YtdlError::MissingOutput(path) => two_texts(
                "expected output missing at ",
                path.as_str(),
            ),
        }
    }
}

/// The error that says that there is no download tool.
pub open spec fn tool_missing() -> ErrorView {
    ErrorView::YtdlpNotFound("\"yt-dlp.exe\""@)
}

/// The error that says that there is no download tool.
fn missing_tool() -> (error: YtdlError)
    ensures
        error@ == tool_missing(),
{
    YtdlError::YtdlpNotFound("\"yt-dlp.exe\"".to_owned())
}

/// Where downloads go, and the tool that makes them.
pub struct YoutubeDownloader {
    download_dir: String,
    ytdlp_path: PathBuf,
}

/// `PathBuf::clone` makes an equal path.
pub assume_specification[ <PathBuf as Clone>::clone ](path: &PathBuf) -> (copy: PathBuf)
    ensures
        copy == *path,
;

impl Clone for YoutubeDownloader {
    fn clone(&self) -> (copy: Self)
        ensures
            copy.tool() == self.tool(),
    {
        proof {
            use_type_invariant(self);
        }
        YoutubeDownloader {
            download_dir: self.download_dir.clone(),
            ytdlp_path: self.ytdlp_path.clone(),
        }
    }
}

impl YoutubeDownloader {
    /// Downloads are always saved in the download folder.
    #[verifier::type_invariant]
    spec fn saves_in_download_folder(self) -> bool {
        self.download_dir@ == "downloaded"@
    }

    /// The download tool.
    pub closed spec fn tool(&self) -> PathBuf {
        self.ytdlp_path
    }

    /// A downloader that uses the tool at `ytdlp_path`. There is none without a tool.
    pub fn new(ytdlp_path: Option<PathBuf>) -> (downloader: Result<Self, YtdlError>)
        ensures
            match ytdlp_path {
                Some(path) => downloader is Ok && downloader->Ok_0.tool() == path,
                None => downloader is Err && downloader->Err_0@ == tool_missing(),
            },
    {
        match ytdlp_path {
            Some(path) => Ok(
                YoutubeDownloader { download_dir: downloaded_dir().to_owned(), ytdlp_path: path },
            ),
            None => Err(missing_tool()),
        }
    }

    /// The folder that downloads are saved in: the same for every downloader and every copy of
    /// it, whatever was downloaded.
    pub fn download_dir(&self) -> (dir: &str)
        ensures
            dir@ == "downloaded"@,
    {
        proof {
            use_type_invariant(self);
        }
        self.download_dir.as_str()
    }

    /// The download tool.
    pub fn ytdlp_path(&self) -> (path: &PathBuf)
        ensures
            *path == self.tool(),
    {
        &self.ytdlp_path
    }
}

/// The folder that downloads and merged files are in.
pub fn downloaded_dir() -> (dir: &'static str)
    ensures
        dir@ == "downloaded"@,
{
    "downloaded"
}

/// Whether the download tool has to be fetched first; none where it cannot be had.
pub open spec fn fetch_decision(present: bool, folder_known: bool) -> Option<bool> {
    if present {
        Some(false)
    } else if folder_known {
        Some(true)
    } else {
        None
    }
}

/// Whether the download tool has to be fetched first. Where it is there already, nothing is to be
/// done; where the folder that it belongs in is unknown, it cannot be had.
pub fn tool_must_be_fetched(present: bool, folder_known: bool) -> (must: Result<bool, YtdlError>)
    ensures
        match must {
            Ok(fetch) => fetch == !present && (present || folder_known),
            Err(error) => !present && !folder_known && error@ == tool_missing(),
        },
        fetch_decision(present, folder_known) == (match must {
            Ok(fetch) => Some(fetch),
            Err(_) => None,
        }),
{
    if present {
        Ok(false)
    } else if folder_known {
        Ok(true)
    } else {
        Err(missing_tool())
    }
}

/// The error of a step that is named before it.
pub fn discovery_failure(step: &str, error: &str) -> (failure: YtdlError)
    ensures
        failure@ == ErrorView::CliDiscovery(step@ + ": "@ + error@),
{
    let mut text = two_texts(step, ": ");
    text.append(error);
    YtdlError::CliDiscovery(text)
}

/// Whether the site from which the download tool is fetched has sent it.
pub fn check_fetch_status(success: bool, status: &str) -> (checked: Result<(), YtdlError>)
    ensures
        match checked {
            Ok(_) => success,
            Err(error) => !success && error@ == ErrorView::CliDiscovery(
                "download failed: HTTP "@ + status@,
            ),
        },
{
    if success {
        Ok(())
    } else {
        Err(YtdlError::CliDiscovery(two_texts("download failed: HTTP ", status)))
    }
}

/// The error that says that an output of the download tool cannot be read.
pub fn missing_stream(name: &str) -> (error: YtdlError)
    ensures
        error@ == ErrorView::CliSpawn("missing "@ + name@),
{
    YtdlError::CliSpawn(two_texts("missing ", name))
}

/// The arguments that make the download tool describe a video.
pub open spec fn info_arguments(input: Seq<char>, cookies: Seq<Seq<char>>) -> Seq<Seq<char>> {
    seq!["-j"@, "--no-playlist"@, "--no-download"@, normalised(input)] + cookies
}

/// The arguments that make the download tool describe a video.
pub fn info_args(input: &str, cookies: &Vec<String>) -> (args: Vec<String>)
    ensures
        views(args@) == info_arguments(input@, views(cookies@)),
        views(cookies@).is_suffix_of(views(args@)),
{
    proof {
        runs_end_in_the_cookie_arguments(input@, input@, input@, views(cookies@));
    }
    let url = normalise_input(input);
    let mut args: Vec<String> = Vec::new();
    push_text(&mut args, "-j");
    push_text(&mut args, "--no-playlist");
    push_text(&mut args, "--no-download");
    push_text(&mut args, url.as_str());
    assert(views(args@) =~= seq!["-j"@, "--no-playlist"@, "--no-download"@, normalised(input@)]);
    push_texts(&mut args, cookies);
    args
}

/// The arguments that make the download tool save one format of a video.
pub open spec fn download_arguments(
    input: Seq<char>,
    itag: Seq<char>,
    output: Seq<char>,
    cookies: Seq<Seq<char>>,
) -> Seq<Seq<char>> {
    seq!["-f"@, itag, "-o"@, output, "--newline"@, "--no-playlist"@, normalised(input)] + cookies
}

/// The arguments that make the download tool save one format of a video.
pub fn download_args(input: &str, itag: &str, output: &str, cookies: &Vec<String>) -> (args: Vec<
    String,
>)
    ensures
        views(args@) == download_arguments(input@, itag@, output@, views(cookies@)),
        views(cookies@).is_suffix_of(views(args@)),
{
    proof {
        runs_end_in_the_cookie_arguments(input@, itag@, output@, views(cookies@));
    }
    let url = normalise_input(input);
    let mut args: Vec<String> = Vec::new();
    push_text(&mut args, "-f");
    push_text(&mut args, itag);
    push_text(&mut args, "-o");
    push_text(&mut args, output);
    push_text(&mut args, "--newline");
    push_text(&mut args, "--no-playlist");
    push_text(&mut args, url.as_str());
    assert(views(args@) =~= seq![
        "-f"@,
        itag@,
        "-o"@,
        output@,
        "--newline"@,
        "--no-playlist"@,
        normalised(input@),
    ]);
    push_texts(&mut args, cookies);
    args
}

/// What is reported of a failed run of the download tool that should have described a video: what
/// it wrote as errors, else what it wrote at all, else that it wrote nothing.
pub open spec fn info_failure(code: Option<i32>, stdout: Seq<char>, stderr: Seq<char>) -> Seq<
    char,
> {
    if trimmed(stderr).len() > 0 {
        trimmed(stderr)
    } else if trimmed(stdout).len() > 0 {
        "status "@ + code_text(code) + " stdout: "@ + trimmed(stdout)
    } else {
        "status "@ + code_text(code) + " (no stderr)"@
    }
}

/// The description that the download tool printed, or why there is none.
pub fn info_text_outcome(success: bool, code: Option<i32>, stdout: &str, stderr: &str) -> (outcome:
    Result<String, YtdlError>)
    ensures
        match outcome {
            Ok(text) => success && text@ == trimmed(stdout@),
            Err(error) => !success && error@ == (ErrorView::YtdlpCliFailed {
                code,
                message: info_failure(code, stdout@, stderr@),
            }),
        },
{
    let written = trim_text(stdout);
    if success {
        return Ok(written);
    }
    let errors = trim_text(stderr);
    if !errors.as_str().is_empty() {
        return Err(YtdlError::YtdlpCliFailed { code, message: errors });
    }
    let shown = show_code(code);
    let mut message = two_texts("status ", shown.as_str());
    if !written.as_str().is_empty() {
        message.append(" stdout: ");
        message.append(written.as_str());
    } else {
        message.append(" (no stderr)");
    }
    Err(YtdlError::YtdlpCliFailed { code, message })
}

/// The description that the download tool printed, or why there is none.
pub fn info_outcome(success: bool, code: Option<i32>, stdout: &[u8], stderr: &[u8]) -> (outcome:
    Result<String, YtdlError>)
    ensures
        match outcome {
            Ok(text) => success && text@ == trimmed(decoded(stdout@)),
            Err(error) => !success && error@ == (ErrorView::YtdlpCliFailed {
                code,
                message: info_failure(code, decoded(stdout@), decoded(stderr@)),
            }),
        },
{
    let written = decode(stdout);
    let errors = decode(stderr);
    info_text_outcome(success, code, written.as_str(), errors.as_str())
}

/// What went wrong with a download, if anything did.
pub open spec fn download_problem(
    success: bool,
    code: Option<i32>,
    stderr: Seq<char>,
    file_exists: bool,
    path: Seq<char>,
) -> Option<ErrorView> {
    if !success {
        Some(ErrorView::YtdlpCliFailed { code, message: trimmed(stderr) })
    } else if !file_exists {
        Some(ErrorView::MissingOutput(path))
    } else {
        None
    }
}

/// What became of a download: the tool has to end well and to leave the file. The progress to
/// report then is one hundred percent. `shown_path` is the path of that file as it is shown.
pub fn download_outcome(
    success: bool,
    code: Option<i32>,
    stderr: &str,
    file_exists: bool,
    shown_path: &str,
) -> (outcome: Result<u8, YtdlError>)
    ensures
        match outcome {
            Ok(progress) => success && file_exists && progress == 100,
            Err(error) => if !success {
                error@ == (ErrorView::YtdlpCliFailed { code, message: trimmed(stderr@) })
            } else {
                !file_exists && error@ == ErrorView::MissingOutput(shown_path@)
            },
        },
        download_problem(success, code, stderr@, file_exists, shown_path@) == (match outcome {
            Ok(_) => None,
            Err(error) => Some(error@),
        }),
{
    if !success {
        Err(YtdlError::YtdlpCliFailed { code, message: trim_text(stderr) })
    } else if !file_exists {
        Err(YtdlError::MissingOutput(shown_path.to_owned()))
    } else {
        Ok(100)
    }
}

/// What became of a download, from what the tool wrote as errors, in bytes.
pub fn download_ended(
    success: bool,
    code: Option<i32>,
    stderr: &[u8],
    file_exists: bool,
    shown_path: &str,
) -> (outcome: Result<u8, YtdlError>)
    ensures
        match outcome {
            Ok(progress) => success && file_exists && progress == 100,
            Err(error) => if !success {
                error@ == (ErrorView::YtdlpCliFailed {
                    code,
                    message: trimmed(decoded(stderr@)),
                })
            } else {
                !file_exists && error@ == ErrorView::MissingOutput(shown_path@)
            },
        },
        download_problem(success, code, decoded(stderr@), file_exists, shown_path@) == (
        match outcome {
            Ok(_) => None,
            Err(error) => Some(error@),
        }),
{
    let text = decode(stderr);
    download_outcome(success, code, text.as_str(), file_exists, shown_path)
}

/// The format with the given number.
pub fn select_format(formats: &Vec<VideoFormat>, itag: u64) -> (selected: Result<usize, YtdlError>)
    ensures
        match selected {
            Ok(at) => at < formats.len() && formats@[at as int].itag == itag && forall|k: int|
                0 <= k < at ==> (#[trigger] formats@[k]).itag != itag,
            Err(error) => error@ == ErrorView::FormatNotFound(itag) && forall|k: int|
                0 <= k < formats.len() ==> (#[trigger] formats@[k]).itag != itag,
        },
        format_index(formats@, itag, 0) == (match selected {
            Ok(at) => Some(at as int),
            Err(_) => None,
        }),
{
    match find_format(formats, itag) {
        Some(at) => Ok(at),
        None => Err(YtdlError::FormatNotFound(itag)),
    }
}

/// A format that is to be saved.
pub struct PreparedFormat {
    /// Its index among the formats of the video.
    pub index: usize,
    /// The name of the file that it is saved as.
    pub file_name: String,
}

/// Selects the format of a video with the given number, and names the file for it.
pub fn prepare_format(formats: &Vec<VideoFormat>, video_id: &str, itag: u64) -> (prepared: Result<
    PreparedFormat,
    YtdlError,
>)
    ensures
        match prepared {
            Ok(choice) => {
                &&& choice.index < formats.len()
                &&& formats@[choice.index as int].itag == itag
                &&& forall|k: int| 0 <= k < choice.index ==> (#[trigger] formats@[k]).itag != itag
                &&& choice.file_name@ == download_name(
                    video_id@,
                    decimal_text(itag as nat),
                    extension_text(
                        formats@[choice.index as int].container@,
                        formats@[choice.index as int].has_video,
                        formats@[choice.index as int].has_audio,
                    ),
                )
            },
            Err(error) => error@ == ErrorView::FormatNotFound(itag) && forall|k: int|
                0 <= k < formats.len() ==> (#[trigger] formats@[k]).itag != itag,
        },
        format_index(formats@, itag, 0) == (match prepared {
            Ok(choice) => Some(choice.index as int),
            Err(_) => None,
        }),
{
    match select_format(formats, itag) {
        Ok(index) => {
            let extension = extension_from_format(&formats[index]);
            let number = decimal(itag);
            let file_name = output_file_name(video_id, number.as_str(), extension.as_str());
            Ok(PreparedFormat { index, file_name })
        },
        Err(error) => Err(error),
    }
}

/// What to do about the file that a download would be saved as.
#[derive(Clone, Copy, PartialEq, Eq, Structural)]
pub enum SavePlan {
    /// There is none: download it.
    Fetch,
    /// It stays, and nothing is downloaded.
    Keep,
    /// It is removed, and downloaded anew.
    Replace,
}

/// What to do about the file that a download would be saved as.
pub open spec fn save_plan(exists: bool, overwrite: bool) -> SavePlan {
    if !exists {
        SavePlan::Fetch
    } else if overwrite {
        SavePlan::Replace
    } else {
        SavePlan::Keep
    }
}

/// What to do about the file that a download would be saved as.
pub fn plan_save(exists: bool, overwrite: bool) -> (plan: SavePlan)
    ensures
        plan == SavePlan::Fetch <==> !exists,
        plan == SavePlan::Keep <==> exists && !overwrite,
        plan == save_plan(exists, overwrite),
{
    if !exists {
        SavePlan::Fetch
    } else if overwrite {
        SavePlan::Replace
    } else {
        SavePlan::Keep
    }
}

/// The arguments that make the download tool update itself.
pub open spec fn update_arguments() -> Seq<Seq<char>> {
    seq!["--update-to"@, "nightly"@]
}

/// The arguments that make the download tool update itself.
pub fn update_args() -> (args: Vec<String>)
    ensures
        views(args@) == seq!["--update-to"@, "nightly"@],
        views(args@) == update_arguments(),
{
    let mut args: Vec<String> = Vec::new();
    push_text(&mut args, "--update-to");
    push_text(&mut args, "nightly");
    assert(views(args@) =~= seq!["--update-to"@, "nightly"@]);
    args
}

/// The last of `list` that is not blank, without the white space round it; nothing where all are
/// blank.
pub open spec fn last_filled(list: Seq<Seq<char>>) -> Seq<char>
    decreases list.len(),
{
    if list.len() == 0 {
        Seq::empty()
    } else if trimmed(list.last()).len() > 0 {
        trimmed(list.last())
    } else {
        last_filled(list.drop_last())
    }
}

/// The line that sums up what the download tool printed about its update.
pub fn update_summary(output: &[u8]) -> (summary: String)
    ensures
        summary@ == last_filled(lines(decoded(output@))),
{
    let text = decode(output);
    last_filled_line(text.as_str())
}

/// The last line that is not blank, without the white space round it.
pub fn last_filled_line(output: &str) -> (line: String)
    ensures
        line@ == last_filled(lines(output@)),
{
    let list = text_lines(output);
    let ghost all = lines(output@);
    let mut i: usize = list.len();
    assert(all.take(i as int) =~= all);
    while i > 0
        invariant
            i <= list.len(),
            all == lines(output@),
            views(list@) == all,
            last_filled(all) == last_filled(all.take(i as int)),
        decreases i,
    {
        assert(all.take(i as int).last() == list@[i - 1]@);
        assert(all.take(i as int).drop_last() =~= all.take(i - 1));
        let line = trim_text(list[i - 1].as_str());
        if !line.as_str().is_empty() {
            return line;
        }
        i = i - 1;
    }
    String::new()
}

/// Both runs of the download tool end in exactly the cookie arguments that they are given, so a
/// download is authenticated as the listing of the formats is.
pub proof fn runs_end_in_the_cookie_arguments(
    input: Seq<char>,
    itag: Seq<char>,
    output: Seq<char>,
    cookies: Seq<Seq<char>>,
)
    ensures
        cookies.is_suffix_of(download_arguments(input, itag, output, cookies)),
        cookies.is_suffix_of(info_arguments(input, cookies)),
{
    let download = download_arguments(input, itag, output, cookies);
    let info = info_arguments(input, cookies);
    assert(download.subrange(download.len() - cookies.len(), download.len() as int) =~= cookies);
    assert(info.subrange(info.len() - cookies.len(), info.len() as int) =~= cookies);
}

/// `value` stands directly behind `option` in `args`.
pub open spec fn option_has_value(
    args: Seq<Seq<char>>,
    option: Seq<char>,
    value: Seq<char>,
) -> bool {
    exists|i: int| 0 <= i < args.len() - 1 && #[trigger] args[i] == option && args[i + 1] == value
}

/// A download asks for the given format and the given file, reports its progress line by line, and
/// is of one video, whose address stands directly before the cookie arguments; nothing else is
/// asked for.
pub proof fn a_download_asks_for_its_format_and_file(
    input: Seq<char>,
    itag: Seq<char>,
    output: Seq<char>,
    cookies: Seq<Seq<char>>,
)
    ensures
        ({
            let args = download_arguments(input, itag, output, cookies);
            &&& args.len() == 7 + cookies.len()
            &&& option_has_value(args, "-f"@, itag)
            &&& option_has_value(args, "-o"@, output)
            &&& args.contains("--newline"@)
            &&& args.contains("--no-playlist"@)
            &&& args[6] == normalised(input)
        }),
{
    let args = download_arguments(input, itag, output, cookies);
    assert(args[0] == "-f"@ && args[0int + 1] == itag);
    assert(args[2] == "-o"@ && args[2int + 1] == output);
    assert(args[4] == "--newline"@);
    assert(args[5] == "--no-playlist"@);
}

/// A listing asks for a description of one video, whose address stands directly before the cookie
/// arguments, and downloads nothing.
pub proof fn a_listing_downloads_nothing(input: Seq<char>, cookies: Seq<Seq<char>>)
    ensures
        ({
            let args = info_arguments(input, cookies);
            &&& args.len() == 4 + cookies.len()
            &&& args.contains("-j"@)
            &&& args.contains("--no-playlist"@)
            &&& args.contains("--no-download"@)
            &&& args[3] == normalised(input)
        }),
{
    let args = info_arguments(input, cookies);
    assert(args[0] == "-j"@);
    assert(args[1] == "--no-playlist"@);
    assert(args[2] == "--no-download"@);
}

/// What a failed listing reports ends in what the tool wrote: its errors if it wrote any, and then
/// nothing else; else its output. Where it wrote neither, its exit code is told.
pub proof fn a_failed_listing_tells_what_the_tool_wrote(
    code: Option<i32>,
    stdout: Seq<char>,
    stderr: Seq<char>,
)
    ensures
        ({
            let told = info_failure(code, stdout, stderr);
            let status = match code {
                Some(number) => "status Some("@ + signed_text(number as int) + ")"@,
                None => "status None"@,
            };
            &&& trimmed(stderr).len() != 0 ==> told == trimmed(stderr)
            &&& trimmed(stderr).len() == 0 && trimmed(stdout).len() != 0 ==> told == status
                + " stdout: "@ + trimmed(stdout)
            &&& trimmed(stderr).len() == 0 && trimmed(stdout).len() == 0 ==> told == status
                + " (no stderr)"@
        }),
{
    reveal_strlit("status ");
    reveal_strlit("Some(");
    reveal_strlit("status Some(");
    reveal_strlit("None");
    reveal_strlit("status None");
    assert("status "@ + "None"@ =~= "status None"@);
    assert("status "@ + "Some("@ =~= "status Some("@);
    match code {
        Some(number) => {
            let digits = signed_text(number as int);
            assert("status "@ + ("Some("@ + digits + ")"@) =~= "status Some("@ + digits + ")"@);
        },
        None => {},
    }
}

/// The summary of an update is the last line with anything but white space in it.
pub proof fn the_summary_is_the_last_filled_line(list: Seq<Seq<char>>, at: int)
    requires
        0 <= at < list.len(),
        trimmed(list[at]).len() > 0,
        forall|k: int| at < k < list.len() ==> trimmed(#[trigger] list[k]).len() == 0,
    ensures
        last_filled(list) == trimmed(list[at]),
    decreases list.len(),
{
    if at < list.len() - 1 {
        let shorter = list.drop_last();
        assert(forall|k: int| 0 <= k < shorter.len() ==> shorter[k] == list[k]);
        assert(trimmed(list[list.len() - 1]).len() == 0);
        the_summary_is_the_last_filled_line(shorter, at);
    }
}

/// What an error says names what it is about.
pub proof fn errors_name_what_they_are_about(text: Seq<char>, itag: u64, code: Option<i32>)
    ensures
        contains_text(error_text(ErrorView::RustyYtdl(text)), text),
        contains_text(error_text(ErrorView::Io(text)), text),
        contains_text(error_text(ErrorView::YtdlpNotFound(text)), text),
        contains_text(error_text(ErrorView::CliDiscovery(text)), text),
        contains_text(error_text(ErrorView::FormatNotFound(itag)), decimal_text(itag as nat)),
        contains_text(error_text(ErrorView::YtdlpCliFailed { code, message: text }), text),
        contains_text(error_text(ErrorView::CliSpawn(text)), text),
        contains_text(error_text(ErrorView::MissingOutput(text)), text),
{
    let none = Seq::<char>::empty();
    lemma_stands_inside("rusty_ytdl error: "@, text, none);
    lemma_stands_inside("filesystem error: "@, text, none);
    lemma_stands_inside(
        "yt-dlp not found at "@,
        text,
        " (place yt-dlp.exe in same folder as downloader.exe)"@,
    );
    lemma_stands_inside("yt-dlp discovery/parse failed: "@, text, none);
    lemma_stands_inside("requested format with itag "@, decimal_text(itag as nat), " not found"@);
    lemma_stands_inside("yt-dlp exited with status "@ + code_text(code) + ": "@, text, none);
    lemma_stands_inside("failed to spawn yt-dlp: "@, text, none);
    lemma_stands_inside("expected output missing at "@, text, none);
}

/// What an error says: first what failed, then what is known of it.
pub proof fn errors_say_what_failed(text: Seq<char>, itag: u64, number: i32)
    ensures
        error_text(ErrorView::RustyYtdl(text)) == "rusty_ytdl error: "@ + text,
        error_text(ErrorView::Io(text)) == "filesystem error: "@ + text,
        error_text(ErrorView::YtdlpNotFound(text)) == "yt-dlp not found at "@ + text
            + " (place yt-dlp.exe in same folder as downloader.exe)"@,
        error_text(ErrorView::CliDiscovery(text)) == "yt-dlp discovery/parse failed: "@ + text,
        error_text(ErrorView::FormatNotFound(itag)) == "requested format with itag "@
            + decimal_text(itag as nat) + " not found"@,
        error_text(ErrorView::YtdlpCliFailed { code: Some(number), message: text })
            == "yt-dlp exited with status "@ + ("Some("@ + signed_text(number as int) + ")"@)
            + ": "@ + text,
        error_text(ErrorView::YtdlpCliFailed { code: None, message: text })
            == "yt-dlp exited with status "@ + "None"@ + ": "@ + text,
        error_text(ErrorView::CliSpawn(text)) == "failed to spawn yt-dlp: "@ + text,
        error_text(ErrorView::MissingOutput(text)) == "expected output missing at "@ + text,
        tool_missing() == ErrorView::YtdlpNotFound("\"yt-dlp.exe\""@),
{
}

/// Where every line is blank, there is nothing to sum up.
pub proof fn blank_lines_have_no_summary(list: Seq<Seq<char>>)
    requires
        forall|k: int| 0 <= k < list.len() ==> trimmed(#[trigger] list[k]).len() == 0,
    ensures
        last_filled(list).len() == 0,
    decreases list.len(),
{
    if list.len() > 0 {
        let shorter = list.drop_last();
        assert(forall|k: int| 0 <= k < shorter.len() ==> shorter[k] == list[k]);
        assert(trimmed(list[list.len() - 1]).len() == 0);
        blank_lines_have_no_summary(shorter);
    }
}

/// The download tool is fetched exactly if it is not there and the folder that it belongs in is
/// known; a tool that is there is never fetched again, and one that belongs nowhere cannot be had.
pub proof fn a_tool_that_is_there_is_not_fetched(folder_known: bool)
    ensures
        fetch_decision(true, folder_known) == Some(false),
        fetch_decision(false, true) == Some(true),
        fetch_decision(false, false) is None,
{
}

/// A file that is there is kept unless it may be overwritten, and is then replaced; a file that is
/// not there is fetched in any case.
pub proof fn a_file_is_replaced_only_if_it_may_be(overwrite: bool)
    ensures
        save_plan(true, false) == SavePlan::Keep,
        save_plan(true, true) == SavePlan::Replace,
        save_plan(false, overwrite) == SavePlan::Fetch,
{
}

/// A download has gone well exactly if the tool ended well and the file is there. A tool that ended
/// badly is blamed first, with its exit code and its errors; else the file that is missing.
pub proof fn a_download_needs_its_file(
    code: Option<i32>,
    stderr: Seq<char>,
    exists: bool,
    path: Seq<char>,
)
    ensures
        download_problem(true, code, stderr, true, path) is None,
        download_problem(true, code, stderr, false, path) == Some(ErrorView::MissingOutput(path)),
        download_problem(false, code, stderr, exists, path) == Some(
            ErrorView::YtdlpCliFailed { code, message: trimmed(stderr) },
        ),
{
}

/// The tool updates itself to its nightly builds.
pub proof fn the_tool_is_updated_to_nightly()
    ensures
        update_arguments().len() == 2,
        option_has_value(update_arguments(), "--update-to"@, "nightly"@),
{
    assert(update_arguments()[0int] == "--update-to"@ && update_arguments()[0int + 1]
        == "nightly"@);
}

} // verus!
