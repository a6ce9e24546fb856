use cologna_karaoke::vad::{detect_vocals, VocalIntervals};

fn frames(pattern: &[(bool, usize)]) -> Vec<bool> {
    pattern.iter().flat_map(|&(v, n)| std::iter::repeat(v).take(n)).collect()
}

#[test]
fn region_opens_after_three_loud_frames_and_closes_after_eight_quiet() {
    // 20 loud frames from frame 5, then silence.
    let active = frames(&[(false, 5), (true, 20), (false, 20)]);
    let iv = detect_vocals(&active);
    assert_eq!(iv.regions, vec![(100, 500)]);
    assert_eq!(iv.total_vocal_ms(), 400);
}

#[test]
fn close_regions_merge_and_short_ones_drop() {
    // Two bursts 200 ms apart merge; a lone 4-frame burst (80 ms) is dropped.
    let active = frames(&[(true, 10), (false, 10), (true, 10), (false, 60), (true, 4), (false, 20)]);
    let iv = detect_vocals(&active);
    assert_eq!(iv.regions, vec![(0, 600)]);
}

#[test]
fn region_still_open_runs_to_the_end() {
    let active = frames(&[(false, 2), (true, 30)]);
    assert_eq!(detect_vocals(&active).regions, vec![(40, 640)]);
}

#[test]
fn first_vocal_in_window_clamps_to_window_start() {
    let iv = VocalIntervals { regions: vec![(100, 500), (900, 1200)] };
    assert_eq!(iv.first_vocal_in_window(0, 1000), Some(100));
    assert_eq!(iv.first_vocal_in_window(300, 1000), Some(300));
    assert_eq!(iv.first_vocal_in_window(500, 900), None);
    assert_eq!(iv.first_vocal_in_window(600, 1000), Some(900));
}

#[test]
fn first_vocal_is_the_earliest_voiced_instant() {
    let iv = VocalIntervals { regions: vec![(100, 200), (500, 900)] };
    assert_eq!(iv.first_vocal_in_window(150, 600), Some(150));
    assert_eq!(iv.first_vocal_in_window(300, 600), Some(500));
    assert_eq!(iv.first_vocal_in_window(300, 400), None);
}

#[test]
fn detected_regions_lie_on_the_frame_grid() {
    let active = frames(&[(false, 5), (true, 40), (false, 30), (true, 12), (false, 3)]);
    let iv = detect_vocals(&active);
    assert!(!iv.regions.is_empty());
    for (s, e) in &iv.regions {
        assert_eq!(s % 20, 0);
        assert_eq!(e % 20, 0);
        assert!(*e <= 20 * active.len() as u64);
    }
}
