//! A local server that downloads videos: it shows the formats of a video, saves the one that is
//! chosen with the help of a download tool, and merges or converts what was saved.
//!
//! This library decides everything that can be decided without touching the network, the file
//! system or another program. What those bring is handed in as plain values, and what is to be
//! done with them is handed back as plain values.

pub mod cards;
pub mod cookies;
pub mod download;
pub mod explorer;
pub mod files;
pub mod form;
pub mod formats;
pub mod html;
pub mod http;
pub mod input;
pub mod jobs;
pub mod json;
pub mod locate;
pub mod merge;
pub mod mp3;
pub mod numbers;
pub mod order;
pub mod page;
pub mod progress;
pub mod settings;
pub mod text;
pub mod unicode;
pub mod ytdlp;

pub use crate::cookies::set_cookies_file;
pub use crate::formats::StreamInfo;
pub use crate::ytdlp::{YoutubeDownloader, YtdlError};
