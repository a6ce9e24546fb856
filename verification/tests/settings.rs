use cologna_karaoke::settings::{cookie_browser_from_name, cookie_browser_label, AlignmentMode, CookieBrowser, MegaSettings};

#[test]
fn cookie_browser_names() {
    assert_eq!(CookieBrowser::Safari.as_str(), Some("safari"));
    assert_eq!(CookieBrowser::NoBrowser.as_str(), None);
    assert_eq!(cookie_browser_label(CookieBrowser::NoBrowser), "none");
    assert_eq!(cookie_browser_from_name("chromium"), CookieBrowser::Chromium);
    assert_eq!(cookie_browser_from_name("opera"), CookieBrowser::NoBrowser);
    for b in [CookieBrowser::NoBrowser, CookieBrowser::Safari, CookieBrowser::Chrome, CookieBrowser::Firefox, CookieBrowser::Chromium] {
        assert_eq!(cookie_browser_from_name(cookie_browser_label(b)), b);
    }
}

#[test]
fn alignment_mode_round_trips() {
    assert_eq!(AlignmentMode::Wav2vec2Ctc.as_str(), "wav2vec2_ctc");
    assert_eq!(AlignmentMode::from_str("wav2vec2_ctc"), Some(AlignmentMode::Wav2vec2Ctc));
    assert_eq!(AlignmentMode::from_str("whisper"), None);
}

#[test]
fn credentials_drop_empty_mfa() {
    let m = MegaSettings::default().with_credentials("a@b.c".into(), "pw".into(), String::new(), true);
    assert_eq!(m.mfa, None);
    assert!(m.should_auto_sync());
    let m = MegaSettings::default().with_credentials("a@b.c".into(), "pw".into(), "123".into(), false);
    assert_eq!(m.mfa.as_deref(), Some("123"));
    assert!(!m.should_auto_sync());
}
