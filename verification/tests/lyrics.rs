use cologna_karaoke::lyrics::{
    clean_title, lrclib_get_url, lrclib_search_url, lyrics_from_lookup, pick_search_lyrics, strip_artist_prefix,
    strip_would_fail, title_candidates, try_title_candidates, LyricsHit,
};

#[test]
fn cleans_youtube_noise() {
    assert_eq!(clean_title("Song Title (Official Video) [HD]"), "Song Title");
    assert_eq!(clean_title("Song - (Lyrics)"), "Song");
    assert_eq!(clean_title("Song ft. Someone"), "Song ft. Someone");
    assert_eq!(clean_title("Song (feat. Someone)"), "Song");
}

#[test]
fn strips_artist_prefix() {
    assert_eq!(strip_artist_prefix("Queen - Bohemian Rhapsody", "queen").as_deref(), Some("Bohemian Rhapsody"));
    assert_eq!(strip_artist_prefix("Other - Song", "Queen").as_deref(), Some("Song"));
    assert_eq!(strip_artist_prefix("Song", "Queen"), None);
}

#[test]
fn title_candidates_drop_repeats() {
    assert_eq!(title_candidates("Queen - Song (Official Video)", "Queen"), vec!["Queen - Song (Official Video)", "Queen - Song", "Song"]);
    assert_eq!(title_candidates("Song", "Queen"), vec!["Song"]);
}

#[test]
fn prefix_cut_inside_a_char_is_detected() {
    // The Kelvin sign lowercases to a one-byte 'k': its three bytes end
    // inside the euro sign of the title.
    assert!(strip_would_fail("k - a\u{20AC}", "\u{212A}"));
    assert!(!strip_would_fail("Queen - Song", "queen"));
    assert_eq!(try_title_candidates("k - a\u{20AC}", "\u{212A}"), None);
    assert_eq!(
        try_title_candidates("Queen - Song (Official Video)", "Queen"),
        Some(vec!["Queen - Song (Official Video)".to_string(), "Queen - Song".to_string(), "Song".to_string()])
    );
}

#[test]
fn builds_lrclib_urls() {
    assert_eq!(lrclib_get_url("Città bella", "Me"), "https://lrclib.net/api/get?track_name=Citt%C3%A0%20bella&artist_name=Me");
    assert_eq!(lrclib_search_url("a b"), "https://lrclib.net/api/search?q=a%20b");
}

#[test]
fn lookup_prefers_synced_lyrics() {
    assert_eq!(lyrics_from_lookup(Some("[00:01.00] x".into()), Some("x".into())).as_deref(), Some("[00:01.00] x"));
    assert_eq!(lyrics_from_lookup(Some("".into()), Some("x".into())).as_deref(), Some("x"));
    assert_eq!(lyrics_from_lookup(None, Some("".into())), None);
}

#[test]
fn search_picks_closest_duration() {
    let hit = |d: Option<i64>, s: Option<&str>, p: Option<&str>| LyricsHit {
        duration_sec: d,
        synced_lyrics: s.map(String::from),
        plain_lyrics: p.map(String::from),
    };
    let hits = vec![
        hit(Some(250), None, Some("plain far")),
        hit(Some(205), Some("synced near"), Some("plain near")),
        hit(Some(199), Some("synced nearest"), None),
        hit(Some(201), Some("synced tie"), None),
    ];
    assert_eq!(pick_search_lyrics(&hits, Some(200)).as_deref(), Some("synced nearest"));
    let plain_only = vec![hit(Some(250), None, Some("far")), hit(Some(210), Some(""), Some("near"))];
    assert_eq!(pick_search_lyrics(&plain_only, Some(200)).as_deref(), Some("near"));
    // Unknown duration: every distance is 0, so the first one wins.
    assert_eq!(pick_search_lyrics(&plain_only, None).as_deref(), Some("far"));
    assert_eq!(pick_search_lyrics(&Vec::new(), Some(1)), None);
}
