use cologna_karaoke::lrc::{format_lrc_timestamp, parse_lrc};

#[test]
fn strips_inline_word_stamps_and_drops_empty_lines() {
    let lines = parse_lrc("[00:01.50] <00:01.50>ciao <00:02.00>mondo\n[00:03.00]<00:03.00>\n[00:02.00] prima");
    assert_eq!(lines.len(), 2);
    assert_eq!(lines[0].ts_ms, 1500);
    assert_eq!(lines[0].text, "ciao mondo");
    assert_eq!(lines[1].text, "prima");
}

#[test]
fn parses_millisecond_fraction_and_unanchored_stamp() {
    let lines = parse_lrc("x [01:02.345]  hello  \r\n[00:00.05]a");
    assert_eq!(lines.len(), 2);
    assert_eq!((lines[0].ts_ms, lines[0].text.as_str()), (50, "a"));
    assert_eq!((lines[1].ts_ms, lines[1].text.as_str()), (62_345, "hello"));
}

#[test]
fn equal_timestamps_keep_input_order() {
    let lines = parse_lrc("[00:05.00]b\n[00:01.00]a\n[00:05.00]c");
    let texts: Vec<&str> = lines.iter().map(|l| l.text.as_str()).collect();
    assert_eq!(texts, vec!["a", "b", "c"]);
}

#[test]
fn rejects_malformed_timestamps() {
    assert!(parse_lrc("[0:01.00] a\n[00:01] b\n[00:01.0] c\n[00:01.0000] d").is_empty());
}

#[test]
fn formats_centiseconds_rounded() {
    assert_eq!(format_lrc_timestamp(0), "[00:00.00]");
    assert_eq!(format_lrc_timestamp(1234), "[00:01.23]");
    assert_eq!(format_lrc_timestamp(1235), "[00:01.24]");
    assert_eq!(format_lrc_timestamp(65_000), "[01:05.00]");
    assert_eq!(format_lrc_timestamp(6_000_000), "[100:00.00]");
}

#[test]
fn equal_timestamps_keep_text_order() {
    let lines = parse_lrc("[00:02.00] c\n[00:01.00] b\n[00:01.00] a");
    let texts: Vec<&str> = lines.iter().map(|l| l.text.as_str()).collect();
    assert_eq!(texts, vec!["b", "a", "c"]);
}

#[test]
fn timestamps_round_to_nearest_centisecond() {
    assert_eq!(format_lrc_timestamp(1234), "[00:01.23]");
    assert_eq!(format_lrc_timestamp(1235), "[00:01.24]");
    assert_eq!(format_lrc_timestamp(61_999), "[01:02.00]");
}
