use cologna_karaoke::downloader::{
    cookie_mode, download_args, download_result, info_args, safe, safe_name, video_artist, video_title, CookieMode,
    VideoInfo,
};
use cologna_karaoke::settings::{AlignmentMode, AppSettings, CookieBrowser, MegaSettings};

fn settings(browser: CookieBrowser, file: Option<&str>) -> AppSettings {
    AppSettings {
        cookie_browser: browser,
        cookies_file: file.map(String::from),
        alignment_mode: AlignmentMode::Wav2vec2Ctc,
        mic_device: None,
        mega: MegaSettings::default(),
    }
}

#[test]
fn cookies_file_takes_priority_over_browser() {
    assert!(matches!(cookie_mode(&settings(CookieBrowser::Chrome, Some("/c.txt"))), CookieMode::File(f) if f == "/c.txt"));
    assert!(matches!(cookie_mode(&settings(CookieBrowser::Chrome, None)), CookieMode::Browser(b) if b == "chrome"));
    assert!(matches!(cookie_mode(&settings(CookieBrowser::NoBrowser, None)), CookieMode::NoCookies));
}

#[test]
fn builds_info_and_download_arguments() {
    let rt = Some("deno:/usr/bin/deno".to_string());
    let mode = CookieMode::Browser("safari".into());
    assert_eq!(
        info_args(&rt, &mode, "https://y/v"),
        vec!["--dump-json", "--no-download", "--no-playlist", "--js-runtimes", "deno:/usr/bin/deno", "--cookies-from-browser", "safari", "https://y/v"]
    );
    assert_eq!(
        download_args("/tmp/original.%(ext)s", &None, &CookieMode::File("/c.txt".into()), "u"),
        vec![
            "-x", "--audio-format", "mp3", "--audio-quality", "0", "-o", "/tmp/original.%(ext)s", "--no-playlist", "--newline",
            "--cookies", "/c.txt", "u"
        ]
    );
    assert_eq!(info_args(&None, &CookieMode::NoCookies, "u"), vec!["--dump-json", "--no-download", "--no-playlist", "u"]);
}

#[test]
fn safe_names_keep_word_chars_spaces_and_hyphens() {
    assert_eq!(safe("  AC/DC: Back-in Black! "), "ACDC Back-in Black");
    assert_eq!(safe("Città_è"), "Città_è");
    assert_eq!(safe_name("Queen", "Bohemian Rhapsody (Live)"), "Queen_Bohemian Rhapsody Live");
}

#[test]
fn picks_title_and_artist_with_fallbacks() {
    let info = VideoInfo {
        track: None,
        title: Some("Song (Official Video)".into()),
        artist: None,
        uploader: None,
        channel: Some("Chan".into()),
        duration_sec: 215,
    };
    assert_eq!(video_title(&info), "Song (Official Video)");
    assert_eq!(video_artist(&info), "Chan");
    let empty = VideoInfo { track: None, title: None, artist: None, uploader: None, channel: None, duration_sec: 0 };
    assert_eq!(video_title(&empty), "Unknown");
    assert_eq!(video_artist(&empty), "Unknown");
    let r = download_result(&info, "https://y/v", "/tmp/original.mp3".into());
    assert_eq!(r.safe_name, "Chan_Song Official Video");
    assert_eq!(r.duration_sec, 215);
    assert_eq!(r.youtube_url, "https://y/v");
    assert_eq!(r.audio_path, "/tmp/original.mp3");
}
