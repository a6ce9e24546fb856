use cologna_karaoke::pipeline::{lyrics_to_store, smoothed_windows, song_identity, sung_window_bounds, StoredLyrics};
use cologna_karaoke::recognizer::SongInfo;

#[test]
fn majority_filter_ignores_isolated_spikes() {
    let loud = [false, true, false, false, false, true, true, true, true, false, false, false];
    let s = smoothed_windows(&loud);
    assert_eq!(s, vec![false, false, false, false, false, true, true, true, true, false, false, false]);
    assert_eq!(sung_window_bounds(&loud), (5, 8));
}

#[test]
fn silent_track_spans_everything() {
    assert_eq!(sung_window_bounds(&[false, false, false]), (0, 2));
}

#[test]
fn recognized_song_overrides_video_metadata() {
    let info = SongInfo { title: "T".into(), artist: "A".into() };
    assert_eq!(song_identity(Some(info), "vt".into(), "va".into()), ("T".to_string(), "A".to_string()));
    assert_eq!(song_identity(None, "vt".into(), "va".into()), ("vt".to_string(), "va".to_string()));
}

#[test]
fn generated_lyrics_win_over_fetched() {
    assert!(matches!(lyrics_to_store(Some("f".into()), Some("g".into())), StoredLyrics::Generated(g) if g == "g"));
    assert!(matches!(lyrics_to_store(Some("f".into()), None), StoredLyrics::Fetched(f) if f == "f"));
    assert!(matches!(lyrics_to_store(None, None), StoredLyrics::Removed));
}
