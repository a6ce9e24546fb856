use vstd::prelude::*;

use crate::text::str_eq;

verus! {

/// Browser to use for yt-dlp cookie extraction.
/// `None` = no cookies (may hit rate limits), others = read from that browser.
#[derive(Debug, Clone, Copy, PartialEq, Eq, Structural)]
pub enum CookieBrowser {
    NoBrowser,
    Safari,
    Chrome,
    Firefox,
    Chromium,
}

/// The yt-dlp name of a browser, if cookies are read from one.
pub open spec fn cookie_browser_name(b: CookieBrowser) -> Option<Seq<char>> {
    match b {
        CookieBrowser::NoBrowser => Option::None,
        CookieBrowser::Safari => Some("safari"@),
        CookieBrowser::Chrome => Some("chrome"@),
        CookieBrowser::Firefox => Some("firefox"@),
        CookieBrowser::Chromium => Some("chromium"@),
    }
}

impl CookieBrowser {
    pub fn as_str(&self) -> (r: Option<&'static str>)
        ensures
            r matches Some(s) ==> cookie_browser_name(*self) == Some(s@),
            r is None <==> cookie_browser_name(*self) is None,
    {
        match self {
            CookieBrowser::NoBrowser => Option::None,
            CookieBrowser::Safari => Some("safari"),
            CookieBrowser::Chrome => Some("chrome"),
            CookieBrowser::Firefox => Some("firefox"),
            CookieBrowser::Chromium => Some("chromium"),
        }
    }
}

/// The name a browser is stored and shown under (`"none"` for no browser).
pub open spec fn cookie_browser_label_spec(b: CookieBrowser) -> Seq<char> {
    match b {
        CookieBrowser::NoBrowser => "none"@,
        CookieBrowser::Safari => "safari"@,
        CookieBrowser::Chrome => "chrome"@,
        CookieBrowser::Firefox => "firefox"@,
        CookieBrowser::Chromium => "chromium"@,
    }
}

/// The browser a settings value names; anything unknown means no browser.
pub open spec fn cookie_browser_from_name_spec(name: Seq<char>) -> CookieBrowser {
    if name == "safari"@ {
        CookieBrowser::Safari
    } else if name == "chrome"@ {
        CookieBrowser::Chrome
    } else if name == "firefox"@ {
        CookieBrowser::Firefox
    } else if name == "chromium"@ {
        CookieBrowser::Chromium
    } else {
        CookieBrowser::NoBrowser
    }
}

/// Label of the configured cookie browser, as reported to the settings UI.
pub fn cookie_browser_label(b: CookieBrowser) -> (r: &'static str)
    ensures
        r@ == cookie_browser_label_spec(b),
{
    match b {
        CookieBrowser::NoBrowser => "none",
        CookieBrowser::Safari => "safari",
        CookieBrowser::Chrome => "chrome",
        CookieBrowser::Firefox => "firefox",
        CookieBrowser::Chromium => "chromium",
    }
}

/// The cookie browser chosen in the settings UI; unknown names select none.
pub fn cookie_browser_from_name(name: &str) -> (r: CookieBrowser)
    ensures
        r == cookie_browser_from_name_spec(name@),
{
    if str_eq(name, "safari") {
        CookieBrowser::Safari
    } else if str_eq(name, "chrome") {
        CookieBrowser::Chrome
    } else if str_eq(name, "firefox") {
        CookieBrowser::Firefox
    } else if str_eq(name, "chromium") {
        CookieBrowser::Chromium
    } else {
        CookieBrowser::NoBrowser
    }
}

/// Choosing a browser by the label it is shown under selects that browser.
pub proof fn law_cookie_browser_label_round_trip(b: CookieBrowser)
    ensures
        cookie_browser_from_name_spec(cookie_browser_label_spec(b)) == b,
{
    reveal_strlit("none");
    reveal_strlit("safari");
    reveal_strlit("chrome");
    reveal_strlit("firefox");
    reveal_strlit("chromium");
    let (n, sa, ch, fi, cm) = ("none"@, "safari"@, "chrome"@, "firefox"@, "chromium"@);
    assert(n[0] != sa[0] && ch[0] != sa[0] && fi[0] != sa[0] && cm[0] != sa[0]);
    assert(n[0] != ch[0] && fi[0] != ch[0] && cm.len() != ch.len());
    assert(n[0] != fi[0] && cm[0] != fi[0]);
    assert(n[0] != cm[0]);
}

/// The yt-dlp name of a browser is its label.
pub proof fn law_cookie_browser_name_is_label(b: CookieBrowser)
    ensures
        cookie_browser_name(b) matches Some(n) ==> n == cookie_browser_label_spec(b),
        cookie_browser_name(b) is None <==> b == CookieBrowser::NoBrowser,
{
}

#[derive(Debug, Clone, Copy, PartialEq, Eq, Structural)]
pub enum AlignmentMode {
    Wav2vec2Ctc,
}

pub open spec fn alignment_mode_name(m: AlignmentMode) -> Seq<char> {
    match m {
        AlignmentMode::Wav2vec2Ctc => "wav2vec2_ctc"@,
    }
}

impl AlignmentMode {
    pub fn as_str(&self) -> (r: &'static str)
        ensures
            r@ == alignment_mode_name(*self),
    {
        match self {
            AlignmentMode::Wav2vec2Ctc => "wav2vec2_ctc",
        }
    }

    pub fn from_str(s: &str) -> (r: Option<Self>)
        ensures
            r == (if s@ == "wav2vec2_ctc"@ {
                Some(AlignmentMode::Wav2vec2Ctc)
            } else {
                None::<AlignmentMode>
            }),
    {
        if str_eq(s, "wav2vec2_ctc") {
            Some(AlignmentMode::Wav2vec2Ctc)
        } else {
            None
        }
    }
}

/// Every alignment mode is read back from its own name.
pub proof fn law_alignment_mode_round_trip(m: AlignmentMode)
    ensures
        (if alignment_mode_name(m) == "wav2vec2_ctc"@ {
            Some(AlignmentMode::Wav2vec2Ctc)
        } else {
            None::<AlignmentMode>
        }) == Some(m),
{
}

#[derive(Debug, Clone, Default)]
pub struct MegaSettings {
    pub email: Option<String>,
    /// Stored plaintext in app_settings.json; the user is told in the Settings UI.
    pub password: Option<String>,
    /// TOTP 2FA code (6-digit); only needed once per device.
    pub mfa: Option<String>,
    pub auto_sync: bool,
}

#[derive(Debug, Clone)]
pub struct AppSettings {
    pub cookie_browser: CookieBrowser,
    /// Path to a Netscape-format cookies.txt file (overrides cookie_browser when set)
    pub cookies_file: Option<String>,
    pub alignment_mode: AlignmentMode,
    /// Preferred microphone device name; None = system default
    pub mic_device: Option<String>,
    pub mega: MegaSettings,
}

impl MegaSettings {
    /// Store new MEGA credentials: an empty 2FA code is kept as none.
    pub fn with_credentials(self, email: String, password: String, mfa: String, auto_sync: bool) -> (r:
        MegaSettings)
        ensures
            r.email == Some(email),
            r.password == Some(password),
            r.mfa == (if mfa@.len() == 0 {
                None::<String>
            } else {
                Some(mfa)
            }),
            r.auto_sync == auto_sync,
    {
        let mfa_opt = if mfa.as_str().is_empty() {
            None
        } else {
            Some(mfa)
        };
        MegaSettings { email: Some(email), password: Some(password), mfa: mfa_opt, auto_sync }
    }

    /// Whether finished jobs are uploaded: auto-sync on and an account set.
    pub fn should_auto_sync(&self) -> (r: bool)
        ensures
            r == (self.auto_sync && self.email is Some),
    {
        self.auto_sync && self.email.is_some()
    }
}

} // verus!
