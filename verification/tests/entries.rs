use cologna_karaoke::entries::{build_entries, estimate_lrc_offset_ms, more_confident, refine_line, TimedWord};
use cologna_karaoke::word_timing::LyricLine;

/// A timed word from engine output in seconds and a [0, 1] confidence.
fn tw(word: &str, start: f64, end: f64, conf: f32) -> TimedWord {
    TimedWord {
        word: word.into(),
        start_ms: (start * 1000.0).round() as i64,
        end_ms: (end * 1000.0).round() as i64,
        confidence: Some((conf as f64 * 1_000_000.0).round() as u32),
    }
}

fn line(text: &str, ts: Option<u64>) -> LyricLine {
    LyricLine { text: text.into(), ts_ms: ts }
}

#[test]
fn estimates_consistent_offset_and_rejects_noise() {
    let lines = vec![line("a", Some(1000)), line("b", Some(5000)), line("c", Some(9000)), line("d", Some(13000))];
    let late = |extra: f64| {
        vec![
            vec![tw("a", 2.5, 3.0, 0.5)],
            vec![tw("b", 6.5 + extra, 7.0 + extra, 0.5)],
            vec![tw("c", 10.4, 11.0, 0.5)],
            vec![tw("d", 14.6, 15.0, 0.5)],
        ]
    };
    assert_eq!(estimate_lrc_offset_ms(&lines, &late(0.0)), Some(1500));
    let noisy = vec![
        vec![tw("a", 2.0, 3.0, 0.5)],
        vec![tw("b", 12.0, 13.0, 0.5)],
        vec![tw("c", 3.0, 4.0, 0.5)],
        vec![tw("d", 30.0, 31.0, 0.5)],
    ];
    assert_eq!(estimate_lrc_offset_ms(&lines, &noisy), None);
}

#[test]
fn offset_needs_three_lines_with_words() {
    let lines = vec![line("a", Some(1000)), line("b", None), line("c", Some(9000)), line("d", Some(13000))];
    let per_line = vec![vec![tw("a", 2.5, 3.0, 0.5)], vec![tw("b", 6.5, 7.0, 0.5)], vec![], vec![tw("d", 14.5, 15.0, 0.5)]];
    assert_eq!(estimate_lrc_offset_ms(&lines, &per_line), None);
}

#[test]
fn offset_can_be_negative() {
    let lines = vec![line("a", Some(3000)), line("b", Some(5000)), line("c", Some(9000))];
    let per_line = vec![vec![tw("a", 2.0, 2.5, 0.5)], vec![tw("b", 4.1, 4.5, 0.5)], vec![tw("c", 7.9, 8.5, 0.5)]];
    assert_eq!(estimate_lrc_offset_ms(&lines, &per_line), Some(-1000));
}

#[test]
fn clamps_to_offset_corrected_next_line() {
    let lines = vec![line("a b", Some(1000)), line("c", Some(3000))];
    // LRC is 2 s early: the raw next-line clamp (3 s) would squash "b".
    let per_line = vec![vec![tw("a", 3.0, 3.5, 0.8), tw("b", 4.0, 4.6, 0.8)], vec![tw("c", 5.0, 5.5, 0.8)]];
    let entries = build_entries(&lines, per_line, Some(2000));
    assert_eq!((entries[1].start_ms, entries[1].end_ms), (4000, 4600));
}

#[test]
fn retimes_low_confidence_run_between_anchors() {
    let lines = vec![line("uno due tre quattro", None), line("x x x x x x", None)];
    let per_line = vec![
        vec![tw("uno", 1.0, 1.4, 0.8), tw("due", 1.4, 1.45, 0.01), tw("tre", 1.45, 1.5, 0.01), tw("quattro", 3.0, 3.5, 0.8)],
        (0..6).map(|i| tw("x", 4.0 + i as f64, 4.5 + i as f64, 0.7)).collect(),
    ];
    let e = build_entries(&lines, per_line, None);
    assert!(e[1].estimated && e[2].estimated && !e[0].estimated);
    assert_eq!(e[1].start_ms, 1400);
    assert_eq!(e[2].end_ms, 3000);
    assert_eq!(e[1].end_ms, e[2].start_ms);
}

#[test]
fn retimed_gap_is_split_by_word_length() {
    // 1600 ms shared by "de" (2 chars) and "quattro" (7 chars).
    let lines = vec![line("uno de quattro cinque", None)];
    let mut words = vec![
        tw("uno", 1.0, 1.4, 0.8),
        tw("de", 1.4, 1.45, 0.01),
        tw("quattro", 1.45, 1.5, 0.01),
        tw("cinque", 3.2, 3.5, 0.8),
    ];
    for i in 0..6 {
        words.push(tw("la", 4.0 + i as f64, 4.5 + i as f64, 0.7));
    }
    let e = build_entries(&lines, vec![words], None);
    assert_eq!((e[1].start_ms, e[1].end_ms), (1400, 1400 + 1800 * 2 / 9));
    assert_eq!((e[2].start_ms, e[2].end_ms), (1400 + 1800 * 2 / 9, 3200));
}

#[test]
fn too_few_confidences_leave_words_as_aligned() {
    let lines = vec![line("uno due tre", None)];
    let per_line = vec![vec![tw("uno", 1.0, 1.4, 0.8), tw("due", 1.4, 1.45, 0.01), tw("tre", 3.0, 3.5, 0.8)]];
    let e = build_entries(&lines, per_line, None);
    assert!(!e[1].estimated);
    assert_eq!((e[1].start_ms, e[1].end_ms), (1400, 1450));
}

#[test]
fn cleans_tokens_and_drops_empty_ones() {
    let lines = vec![line("«ciao», & mondo!", None)];
    let per_line = vec![vec![tw("«ciao»,", 1.0, 1.5, 0.9), tw("&", 1.5, 1.6, 0.9), tw("mondo!", 2.0, 2.5, 0.9)]];
    let e = build_entries(&lines, per_line, None);
    assert_eq!(e.len(), 2);
    assert_eq!(e[0].word, "ciao");
    assert_eq!(e[1].word, "mondo");
    assert_eq!(e[1].line, Some(0));
    assert_eq!(e[0].score, Some(900_000));
}

#[test]
fn starts_become_monotonic_and_spans_non_empty() {
    let lines = vec![line("a b", None), line("c", None)];
    let per_line = vec![vec![tw("a", 2.0, 2.0, 0.9), tw("b", 1.0, 1.2, 0.9)], vec![tw("c", -0.5, 0.3, 0.9)]];
    let e = build_entries(&lines, per_line, None);
    assert_eq!((e[0].start_ms, e[0].end_ms), (2000, 2050));
    assert_eq!((e[1].start_ms, e[1].end_ms), (2000, 2050));
    assert_eq!((e[2].start_ms, e[2].end_ms), (2000, 2050));
    assert_eq!(e[2].line, Some(1));
}

fn scored(millionths: &[Option<u32>]) -> Vec<TimedWord> {
    millionths
        .iter()
        .map(|&c| TimedWord { word: "w".into(), start_ms: 0, end_ms: 10, confidence: c })
        .collect()
}

#[test]
fn higher_mean_confidence_wins() {
    let better = vec![tw("a", 0.0, 0.5, 0.8), tw("b", 0.5, 1.0, 0.9)];
    let worse = vec![tw("a", 0.0, 0.5, 0.5)];
    assert!(more_confident(&better, &worse));
    assert!(!more_confident(&worse, &better));
    // Equal means: the current alignment is kept.
    assert!(!more_confident(&scored(&[Some(2), Some(4)]), &scored(&[Some(3)])));
}

#[test]
fn mean_confidence_compares_exact_fractions() {
    // 3/2 against 4/3: same integer part, the remainders decide.
    assert!(more_confident(&scored(&[Some(1), Some(2)]), &scored(&[Some(1), Some(1), Some(2)])));
    assert!(!more_confident(&scored(&[Some(1), Some(1), Some(2)]), &scored(&[Some(1), Some(2)])));
    // Unknown confidences are left out of the mean.
    assert!(more_confident(&scored(&[Some(7), None]), &scored(&[Some(6), Some(6)])));
}

#[test]
fn unknown_confidence_scores_zero() {
    assert!(!more_confident(&scored(&[None, None]), &scored(&[])));
    assert!(!more_confident(&scored(&[None]), &scored(&[Some(5)])));
    assert!(more_confident(&scored(&[Some(1)]), &scored(&[None])));
    assert!(!more_confident(&scored(&[Some(0)]), &scored(&[None])));
}

#[test]
fn refinement_replaces_a_line_only_with_a_better_full_match() {
    let w = |c: Option<u32>| TimedWord { word: "w".into(), start_ms: 0, end_ms: 10, confidence: c };
    let mut per_line = vec![vec![w(Some(300_000)), w(Some(300_000))], vec![w(Some(100_000))]];
    // Wrong word count: kept.
    assert!(!refine_line(&mut per_line, 0, 2, vec![w(Some(900_000))]));
    // Worse: kept.
    assert!(!refine_line(&mut per_line, 0, 2, vec![w(Some(100_000)), w(Some(100_000))]));
    assert_eq!(per_line[0][0].confidence, Some(300_000));
    // Better with the right count: replaced.
    assert!(refine_line(&mut per_line, 0, 2, vec![w(Some(800_000)), w(Some(900_000))]));
    assert_eq!(per_line[0][1].confidence, Some(900_000));
    assert_eq!(per_line[1][0].confidence, Some(100_000));
}
