use cologna_karaoke::pitch::{contour_frames, current_word_index, points_before};

/// Word being sung with its reference note (words without a note are not scored).
fn current_word(words: &[(u64, u64, Option<f32>)], elapsed_ms: u64) -> Option<(usize, f32)> {
    let bounds: Vec<(u64, u64)> = words.iter().map(|w| (w.0, w.1)).collect();
    let idx = current_word_index(&bounds, elapsed_ms)?;
    words[idx].2.map(|m| (idx, m))
}

#[test]
fn current_word_finds_containing_word() {
    let words = vec![(0, 100, Some(60.0)), (200, 300, Some(62.0)), (300, 400, None)];
    assert_eq!(current_word(&words, 50), Some((0, 60.0)));
    assert_eq!(current_word(&words, 150), None);
    assert_eq!(current_word(&words, 250), Some((1, 62.0)));
    assert_eq!(current_word(&words, 350), None);
}

#[test]
fn current_word_index_edges() {
    let bounds = vec![(100, 200), (200, 300)];
    assert_eq!(current_word_index(&bounds, 99), None);
    assert_eq!(current_word_index(&bounds, 100), Some(0));
    assert_eq!(current_word_index(&bounds, 200), Some(1));
    assert_eq!(current_word_index(&bounds, 300), None);
    assert_eq!(current_word_index(&[], 5), None);
}

#[test]
fn contour_range_located_by_time() {
    // Points at 0, 10, 20, 30 ms: [10, 30) holds the points at 10 and 20.
    let times = vec![0, 10, 20, 30];
    assert_eq!((points_before(&times, 10), points_before(&times, 30)), (1, 3));
    assert_eq!((points_before(&times, 40), points_before(&times, 50)), (4, 4));
    assert_eq!(points_before(&[5, 5, 5, 9], 5), 0);
    assert_eq!(points_before(&[], 5), 0);
}

/// Median reference frequency in `[start_ms, end_ms)` of a time-sorted contour.
fn median_hz_in_range(points: &[(u64, f32)], start_ms: u64, end_ms: u64) -> Option<f32> {
    let times: Vec<u64> = points.iter().map(|p| p.0).collect();
    let lo = points_before(&times, start_ms);
    let hi = points_before(&times, end_ms);
    let mut hz: Vec<f32> = points.get(lo..hi.max(lo))?.iter().filter(|p| p.1 > 0.0).map(|p| p.1).collect();
    if hz.is_empty() {
        return None;
    }
    hz.sort_by(|a, b| a.total_cmp(b));
    Some(hz[hz.len() / 2])
}

#[test]
fn median_uses_only_points_in_range() {
    let pts = vec![(0, 100.0), (10, 200.0), (20, 300.0), (30, 400.0)];
    assert_eq!(median_hz_in_range(&pts, 10, 30), Some(300.0));
    assert_eq!(median_hz_in_range(&pts, 40, 50), None);
}

#[test]
fn contour_windows_every_ten_ms() {
    // 16 kHz: a window of 1024 samples every 160 samples while it fits.
    let frames = contour_frames(2000, 16_000);
    assert_eq!(frames, vec![(0, 0), (160, 10), (320, 20), (480, 30), (640, 40), (800, 50), (960, 60)]);
    assert_eq!(contour_frames(1054, 16_000), vec![(0, 0)]);
    assert!(contour_frames(1000, 16_000).is_empty());
    // A rate too low for a 10 ms hop gives no window.
    assert!(contour_frames(5000, 50).is_empty());
    // 44.1 kHz: hop of 441 samples, times rounded down to the millisecond.
    assert_eq!(contour_frames(2000, 44_100), vec![(0, 0), (441, 10), (882, 20)]);
}
