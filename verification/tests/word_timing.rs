use cologna_karaoke::lrc::parse_lrc;
use cologna_karaoke::word_timing::{
    generate_lrc, line_windows, parse_lyrics, score_thousandths, split_by_counts, LyricLine, WordEntry,
};

fn line(text: &str, ts: Option<u64>) -> LyricLine {
    LyricLine { text: text.into(), ts_ms: ts }
}

#[test]
fn parses_synced_and_plain_lyrics() {
    let synced = parse_lyrics("[00:01.00] uno due\n[00:03.00] tre").unwrap();
    assert!(synced.synced);
    assert_eq!(synced.lines[1], line("tre", Some(3000)));

    let plain = parse_lyrics("[Chorus]\nuno due\n\n  tre  \n").unwrap();
    assert!(!plain.synced);
    assert_eq!(plain.lines, vec![line("uno due", None), line("tre", None)]);

    assert!(parse_lyrics("  \n[Intro]\n").is_none());
}

#[test]
fn splits_stream_by_line_counts() {
    let groups = split_by_counts(vec![1, 2, 3, 4, 5], &[2, 0, 3]);
    assert_eq!(groups, vec![vec![1, 2], vec![], vec![3, 4, 5]]);
}

#[test]
fn split_stops_when_words_run_out() {
    let groups = split_by_counts(vec!["a", "b", "c"], &[2, 2, 1]);
    assert_eq!(groups, vec![vec!["a", "b"], vec!["c"], vec![]]);
}

#[test]
fn generates_lrc_keeping_every_line() {
    let lines = vec![line("uno", None), line("...", None), line("due", None)];
    let entries = vec![
        WordEntry { word: "uno".into(), start_ms: 1234, end_ms: 1500, line: Some(0), score: None, estimated: false },
        WordEntry { word: "due".into(), start_ms: 65_000, end_ms: 65_500, line: Some(2), score: None, estimated: false },
    ];
    let lrc = generate_lrc(&lines, &entries);
    assert_eq!(lrc, "[00:01.23]uno\n[00:01.23]...\n[01:05.00]due\n");
    // Round-trips through the LRC parser with the same line order.
    let parsed = parse_lrc(&lrc);
    assert_eq!(parsed.iter().map(|l| l.text.as_str()).collect::<Vec<_>>(), vec!["uno", "...", "due"]);
}

#[test]
fn generated_line_uses_earliest_word_and_never_goes_back() {
    let lines = vec![line("a", None), line("b", None)];
    let entries = vec![
        WordEntry { word: "a2".into(), start_ms: 5_000, end_ms: 5_100, line: Some(0), score: None, estimated: false },
        WordEntry { word: "a1".into(), start_ms: 4_000, end_ms: 4_100, line: Some(0), score: None, estimated: false },
        WordEntry { word: "b".into(), start_ms: 3_000, end_ms: 3_100, line: Some(1), score: None, estimated: false },
        WordEntry { word: "x".into(), start_ms: 1, end_ms: 2, line: Some(7), score: None, estimated: false },
    ];
    assert_eq!(generate_lrc(&lines, &entries), "[00:04.00]a\n[00:04.00]b\n");
}

#[test]
fn joined_text_uses_single_spaces() {
    let input = parse_lyrics("uno due\ntre").unwrap();
    assert_eq!(input.joined_text(), "uno due tre");
}

#[test]
fn windows_follow_shifted_timestamps() {
    let lines = vec![line("a", Some(1000)), line("b", Some(5000))];
    let w = line_windows(&lines, 500, 100_000);
    assert_eq!(w[0], Some((500, 6500)));
    assert_eq!(w[1], Some((4500, 18500)));
}

#[test]
fn windows_skip_untimed_lines_and_clip_to_song_end() {
    let lines = vec![line("a", None), line("b", Some(200)), line("c", Some(9000))];
    let w = line_windows(&lines, -500, 7_400);
    assert_eq!(w[0], None);
    assert_eq!(w[1], Some((0, 7400)));
    assert_eq!(w[2], None);
}

#[test]
fn scores_round_to_thousandths() {
    assert_eq!(score_thousandths(987_654), 988);
    assert_eq!(score_thousandths(1_499), 1);
    assert_eq!(score_thousandths(1_500), 2);
    assert_eq!(score_thousandths(0), 0);
    assert_eq!(score_thousandths(u32::MAX), 4_294_967);
}

#[test]
fn split_groups_take_counts_while_words_last() {
    let groups = split_by_counts(vec![1, 2, 3, 4, 5], &[2, 0, 2, 3, 1]);
    assert_eq!(groups, vec![vec![1, 2], vec![], vec![3, 4], vec![5], vec![]]);
}
