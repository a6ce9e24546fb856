//! What the yt-dlp download decides: where cookies come from, the argument
//! lists of its two runs, and the song description built from its metadata.
use vstd::prelude::*;

use regex::Regex;

use crate::settings::{cookie_browser_name, AppSettings};
use crate::text::{chars_of, is_ascii, string_from_chars, trim, trim_chars};
use vstd::string::StringExecFns;

verus! {

#[derive(Debug, Clone)]
pub struct DownloadResult {
    pub title: String,
    pub artist: String,
    pub duration_sec: u64,
    pub youtube_url: String,
    pub safe_name: String,
    pub audio_path: String,
}

/// Where yt-dlp reads cookies from: a cookies.txt file (it takes priority), a
/// browser, or nowhere.
#[derive(Debug, Clone)]
pub enum CookieMode {
    File(String),
    Browser(String),
    NoCookies,
}

pub fn cookie_mode(settings: &AppSettings) -> (r: CookieMode)
    ensures
        match settings.cookies_file {
            Some(f) => r == CookieMode::File(f),
            None => match cookie_browser_name(settings.cookie_browser) {
                Some(b) => r matches CookieMode::Browser(s) && s@ == b,
                None => r == CookieMode::NoCookies,
            },
        },
{
    match &settings.cookies_file {
        Some(f) => CookieMode::File(f.clone()),
        None => match settings.cookie_browser.as_str() {
            Some(b) => CookieMode::Browser(String::from_str(b)),
            None => CookieMode::NoCookies,
        },
    }
}

// ───────────── yt-dlp arguments ─────────────

pub open spec fn views(v: Seq<String>) -> Seq<Seq<char>> {
    v.map_values(|s: String| s@)
}

pub open spec fn runtime_args(js_runtime: Option<String>) -> Seq<Seq<char>> {
    match js_runtime {
        Some(rt) => seq!["--js-runtimes"@, rt@],
        None => seq![],
    }
}

pub open spec fn cookie_args(mode: CookieMode) -> Seq<Seq<char>> {
    match mode {
        CookieMode::File(f) => seq!["--cookies"@, f@],
        CookieMode::Browser(b) => seq!["--cookies-from-browser"@, b@],
        CookieMode::NoCookies => seq![],
    }
}

/// Arguments of the metadata run: JSON only, no download, no playlist.
pub open spec fn info_args_spec(js_runtime: Option<String>, mode: CookieMode, url: Seq<char>) -> Seq<
    Seq<char>,
> {
    seq!["--dump-json"@, "--no-download"@, "--no-playlist"@] + runtime_args(js_runtime)
        + cookie_args(mode) + seq![url]
}

/// Arguments of the download run: best-quality mp3 into `template`, one
/// progress line per update.
pub open spec fn download_args_spec(
    template: Seq<char>,
    js_runtime: Option<String>,
    mode: CookieMode,
    url: Seq<char>,
) -> Seq<Seq<char>> {
    seq![
        "-x"@,
        "--audio-format"@,
        "mp3"@,
        "--audio-quality"@,
        "0"@,
        "-o"@,
        template,
        "--no-playlist"@,
        "--newline"@,
    ] + runtime_args(js_runtime) + cookie_args(mode) + seq![url]
}

fn push_str(v: &mut Vec<String>, s: &str)
    ensures
        views(final(v)@) == views(old(v)@).push(s@),
{
    let ghost before = v@;
    v.push(String::from_str(s));
    assert(views(v@) =~= views(before).push(s@));
}

/// Appends the runtime and cookie options, then the URL.
fn push_common(v: &mut Vec<String>, js_runtime: &Option<String>, mode: &CookieMode, url: &str)
    ensures
        views(final(v)@) == views(old(v)@) + runtime_args(*js_runtime) + cookie_args(*mode) + seq![
            url@,
        ],
{
    let ghost v0 = views(v@);
    match js_runtime {
        Some(rt) => {
            push_str(v, "--js-runtimes");
            push_str(v, rt.as_str());
        },
        None => {},
    }
    assert(views(v@) =~= v0 + runtime_args(*js_runtime));
    let ghost v1 = views(v@);
    match mode {
        CookieMode::File(f) => {
            push_str(v, "--cookies");
            push_str(v, f.as_str());
        },
        CookieMode::Browser(b) => {
            push_str(v, "--cookies-from-browser");
            push_str(v, b.as_str());
        },
        CookieMode::NoCookies => {},
    }
    assert(views(v@) =~= v1 + cookie_args(*mode));
    push_str(v, url);
    assert(views(v@) =~= v0 + runtime_args(*js_runtime) + cookie_args(*mode) + seq![url@]);
}

pub fn info_args(js_runtime: &Option<String>, mode: &CookieMode, url: &str) -> (r: Vec<String>)
    ensures
        views(r@) == info_args_spec(*js_runtime, *mode, url@),
{
    let mut v: Vec<String> = Vec::new();
    push_str(&mut v, "--dump-json");
    push_str(&mut v, "--no-download");
    push_str(&mut v, "--no-playlist");
    assert(views(v@) =~= seq!["--dump-json"@, "--no-download"@, "--no-playlist"@]);
    push_common(&mut v, js_runtime, mode, url);
    v
}

pub fn download_args(template: &str, js_runtime: &Option<String>, mode: &CookieMode, url: &str) -> (r:
    Vec<String>)
    ensures
        views(r@) == download_args_spec(template@, *js_runtime, *mode, url@),
{
    let mut v: Vec<String> = Vec::new();
    push_str(&mut v, "-x");
    push_str(&mut v, "--audio-format");
    push_str(&mut v, "mp3");
    push_str(&mut v, "--audio-quality");
    push_str(&mut v, "0");
    push_str(&mut v, "-o");
    push_str(&mut v, template);
    push_str(&mut v, "--no-playlist");
    push_str(&mut v, "--newline");
    assert(views(v@) =~= seq![
        "-x"@,
        "--audio-format"@,
        "mp3"@,
        "--audio-quality"@,
        "0"@,
        "-o"@,
        template@,
        "--no-playlist"@,
        "--newline"@,
    ]);
    push_common(&mut v, js_runtime, mode, url);
    v
}

// ───────────── song description ─────────────

/// The metadata fields of yt-dlp's JSON that the download reads (a field is
/// `None` when absent or not a string).
#[derive(Debug, Clone)]
pub struct VideoInfo {
    pub track: Option<String>,
    pub title: Option<String>,
    pub artist: Option<String>,
    pub uploader: Option<String>,
    pub channel: Option<String>,
    /// Whole seconds of the reported duration (0 when missing).
    pub duration_sec: u64,
}

pub open spec fn first_some(a: Option<String>, b: Option<String>) -> Option<String> {
    match a {
        Some(x) => Some(x),
        None => b,
    }
}

pub open spec fn or_unknown(v: Option<String>) -> Seq<char> {
    match v {
        Some(x) => x@,
        None => "Unknown"@,
    }
}

/// Song title: the track name, else the video title.
pub open spec fn video_title_spec(info: VideoInfo) -> Seq<char> {
    or_unknown(first_some(info.track, info.title))
}

/// Artist: the credited artist, else the uploader, else the channel.
pub open spec fn video_artist_spec(info: VideoInfo) -> Seq<char> {
    or_unknown(first_some(info.artist, first_some(info.uploader, info.channel)))
}

fn or_unknown_of(v: &Option<String>) -> (r: String)
    ensures
        r@ == or_unknown(*v),
{
    match v {
        Some(x) => x.clone(),
        None => String::from_str("Unknown"),
    }
}

pub fn video_title(info: &VideoInfo) -> (r: String)
    ensures
        r@ == video_title_spec(*info),
{
    match &info.track {
        Some(t) => t.clone(),
        None => or_unknown_of(&info.title),
    }
}

pub fn video_artist(info: &VideoInfo) -> (r: String)
    ensures
        r@ == video_artist_spec(*info),
{
    match &info.artist {
        Some(a) => a.clone(),
        None => match &info.uploader {
            Some(u) => u.clone(),
            None => or_unknown_of(&info.channel),
        },
    }
}

// ───────────── safe names ─────────────

/// For a non-ASCII char: whether the regex class `[\w\s-]` (Unicode word
/// chars, `White_Space`, hyphen) contains it.
pub uninterp spec fn unicode_word_space_hyphen(c: char) -> bool;

/// Chars kept in a safe name: `[\w\s-]`; on ASCII exactly letters, digits,
/// `_`, `-`, space and `\t`..`\r`.
pub open spec fn safe_char(c: char) -> bool {
    if is_ascii(c) {
        ('0' <= c && c <= '9') || ('A' <= c && c <= 'Z') || ('a' <= c && c <= 'z') || c == '_' || c
            == '-' || c == ' ' || ('\t' <= c && c <= '\r')
    } else {
        unicode_word_space_hyphen(c)
    }
}

pub open spec fn safe_char_fn() -> spec_fn(char) -> bool {
    |c: char| safe_char(c)
}

/// `Regex::replace_all` with `[^\w\s-]` and an empty replacement: every char
/// outside the class is removed, the others are kept in order.
#[verifier::external_body]
fn remove_unsafe_chars(s: &str) -> (r: String)
    ensures
        r@ == s@.filter(|c: char| if is_ascii(c) { safe_char(c) } else { unicode_word_space_hyphen(c) }),
{
    let re = Regex::new(r"[^\w\s-]").unwrap();
    re.replace_all(s, "").into_owned()
}

/// `s` without chars outside `[\w\s-]`, trimmed.
pub open spec fn safe_spec(s: Seq<char>) -> Seq<char> {
    trim(s.filter(safe_char_fn()))
}

pub fn safe(s: &str) -> (r: String)
    ensures
        r@ == safe_spec(s@),
{
    let kept = remove_unsafe_chars(s);
    assert(kept@ =~= s@.filter(safe_char_fn())) by {
        assert(safe_char_fn() =~= (|c: char|
            if is_ascii(c) {
                safe_char(c)
            } else {
                unicode_word_space_hyphen(c)
            }));
    }
    let chars = chars_of(kept.as_str());
    let trimmed = trim_chars(&chars);
    string_from_chars(&trimmed)
}

/// Folder-safe song name: safe artist, `_`, safe title.
pub open spec fn safe_name_spec(artist: Seq<char>, title: Seq<char>) -> Seq<char> {
    safe_spec(artist) + "_"@ + safe_spec(title)
}

pub fn safe_name(artist: &str, title: &str) -> (r: String)
    ensures
        r@ == safe_name_spec(artist@, title@),
{
    let a = safe(artist);
    let t = safe(title);
    a.concat("_").concat(t.as_str())
}

/// The result of a finished download of `url` with metadata `info`, whose
/// audio was written to `audio_path`.
pub fn download_result(info: &VideoInfo, url: &str, audio_path: String) -> (r: DownloadResult)
    ensures
        r.title@ == video_title_spec(*info),
        r.artist@ == video_artist_spec(*info),
        r.duration_sec == info.duration_sec,
        r.youtube_url@ == url@,
        r.safe_name@ == safe_name_spec(video_artist_spec(*info), video_title_spec(*info)),
        r.audio_path == audio_path,
{
    let title = video_title(info);
    let artist = video_artist(info);
    let safe_name = safe_name(artist.as_str(), title.as_str());
    DownloadResult {
        title,
        artist,
        duration_sec: info.duration_sec,
        youtube_url: String::from_str(url),
        safe_name,
        audio_path,
    }
}

} // verus!
