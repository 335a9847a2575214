# downloader

A local server for downloading videos. It shows the formats of a video, saves the one that is
chosen with the help of yt-dlp, and merges or converts what was saved with FFmpeg.

## Layout

- `src/` is the library. It decides everything that can be decided without touching the network,
  the file system or another program: requests and answers, the page and its cards, jobs, file
  names, the arguments of the tools and the meaning of their output. Every function is verified
  with Verus against its contract, but for seven small wrappers round outside calls, whose contracts
  are believed. What holds of several functions together is stated as public
  proof functions beside them.
- `tests/` runs the library on concrete values, with the outside crates linked.
- `app/` is the program: it listens, reads and writes files, runs the tools, and asks the library
  at every step.

What is believed of outside code is stated where it is called: the form encoding of `url`
(`form.rs`), the objects of `serde_json` (`json.rs`), lossy decoding and lower case of the standard
library (`unicode.rs`), `String::push` (`text.rs`) and the copying of paths (`ytdlp.rs`).

## Running

yt-dlp.exe is looked for in the working folder, in `ytdlp/` under it, and from the folder of the
program upward; where it is nowhere, it is fetched.

The server listens on `127.0.0.1`, on port 8080 or on the one in `DOWNLOADER_PORT`. The page is
made from `index.html`, beside the program or in the working folder, in which `{{ESCAPED_INPUT}}`
and `{{RESULT_SECTION}}` are filled in; without that file a plain page is shown.

`DOWNLOADER_COOKIES_BROWSER` and `DOWNLOADER_COOKIES_FILE` name cookies for yt-dlp, unless some
were uploaded. `DOWNLOADER_NO_UPDATE` keeps yt-dlp as it is.
