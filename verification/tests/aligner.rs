use cologna_karaoke::aligner::{alignment_needed, detect_lrc_language, plain_lyrics_lrc};
use cologna_karaoke::word_timing::{parse_lyrics, WordEntry};

#[test]
fn detects_language_from_stopwords() {
    assert_eq!(detect_lrc_language("the sun and the moon are in the sky with you"), Some("en"));
    assert_eq!(detect_lrc_language("Nel mezzo del cammin di nostra vita mi ritrovai per una selva oscura che la"), Some("it"));
    assert_eq!(detect_lrc_language("der Mann und die Frau ist nicht hier"), Some("de"));
}

#[test]
fn no_language_without_signal() {
    assert_eq!(detect_lrc_language("the and of"), None);
    assert_eq!(detect_lrc_language("xyz qwe rty uio pas dfg"), None);
}

#[test]
fn language_tie_goes_to_earlier_language() {
    // "la" and "de" and "que" count for several languages; Italian comes first.
    assert_eq!(detect_lrc_language("la la la zz zz"), Some("it"));
}

#[test]
fn alignment_needed_only_without_cache_and_with_lyrics() {
    assert!(alignment_needed(false, Some("uno due\ntre")));
    assert!(!alignment_needed(true, Some("uno due\ntre")));
    assert!(!alignment_needed(false, None));
    assert!(!alignment_needed(false, Some("  \n[Intro]\n")));
}

#[test]
fn generates_lrc_only_for_plain_lyrics_with_words() {
    let plain = parse_lyrics("uno\ndue").unwrap();
    let entries = vec![WordEntry { word: "uno".into(), start_ms: 1000, end_ms: 1500, line: Some(0), score: None, estimated: false }];
    assert_eq!(plain_lyrics_lrc(&plain, &entries).as_deref(), Some("[00:01.00]uno\n[00:01.00]due\n"));
    assert_eq!(plain_lyrics_lrc(&plain, &[]), None);
    let synced = parse_lyrics("[00:01.00] uno").unwrap();
    assert_eq!(plain_lyrics_lrc(&synced, &entries), None);
}

#[test]
fn language_needs_five_words_and_three_hits() {
    assert_eq!(detect_lrc_language("il sole e la luna"), Some("it"));
    assert_eq!(detect_lrc_language("the cat"), None);
    assert_eq!(detect_lrc_language("one two three four five"), None);
}
