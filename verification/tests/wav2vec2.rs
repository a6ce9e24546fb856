use cologna_karaoke::ctc::{aggregate_word_span, backtrack_states, extended_targets, states_to_token_spans, TokenSpan};
use cologna_karaoke::target::{count_alignable_words, lyrics_to_target_ids};
use cologna_karaoke::vocab::Vocab;

fn fake_vocab() -> Vocab {
    let json = br#"{"<pad>":0,"<s>":1,"</s>":2,"<unk>":3,"|":4,"a":5,"b":6,"c":7,"i":8,"o":9}"#;
    Vocab::from_bytes(json).unwrap()
}

#[test]
fn parses_minimal_vocab() {
    let json = br#"{"<pad>":0,"<s>":1,"</s>":2,"<unk>":3,"|":4,"a":5,"b":6}"#;
    let v = Vocab::from_bytes(json).unwrap();
    assert_eq!(v.pad_id, 0);
    assert_eq!(v.unk_id, 3);
    assert_eq!(v.delimiter_id, 4);
    assert_eq!(v.vocab_size, 7);
    assert_eq!(v.id_for_char('a'), 5);
    assert_eq!(v.id_for_char('z'), v.unk_id);
}

#[test]
fn rejects_vocab_without_required_tokens() {
    assert!(Vocab::from_bytes(br#"{"<pad>":0,"|":4}"#).is_err());
    assert!(Vocab::from_bytes(br#"{}"#).is_err());
    assert!(Vocab::from_bytes(b"not json").is_err());
}

#[test]
fn builds_target_with_delimiters() {
    let vocab = fake_vocab();
    let seq = lyrics_to_target_ids("Ab ciao!", &vocab);
    // a b | c i a o
    assert_eq!(seq.ids, vec![5, 6, 4, 7, 8, 5, 9]);
    assert_eq!(seq.words.len(), 2);
    assert_eq!(seq.words[0].word, "Ab");
    assert_eq!(seq.words[0].token_range, 0..2);
    assert_eq!(seq.words[1].word, "ciao!");
    assert_eq!(seq.words[1].token_range, 3..7);
}

#[test]
fn maps_unknown_chars_to_unk() {
    let vocab = fake_vocab();
    let seq = lyrics_to_target_ids("xyz", &vocab);
    assert_eq!(seq.ids, vec![vocab.unk_id, vocab.unk_id, vocab.unk_id]);
}

#[test]
fn skips_words_without_letters() {
    let vocab = fake_vocab();
    let seq = lyrics_to_target_ids("a 42 & b", &vocab);
    assert_eq!(seq.ids, vec![5, 4, 6]);
    assert_eq!(seq.words.len(), 2);
    assert_eq!(seq.words[1].word, "b");
    assert_eq!(count_alignable_words("a 42 & b"), 2);
    assert_eq!(count_alignable_words("  "), 0);
}

#[test]
fn extended_targets_interleave_blanks() {
    assert_eq!(extended_targets(&[5, 6], 0), vec![0, 5, 0, 6, 0]);
    assert_eq!(extended_targets(&[], 9), vec![9]);
}

#[test]
fn backtrack_follows_choices() {
    // 3 frames, 5 states; ends in state 3; frame 2 steps back one, frame 1 skips two.
    let mut back = vec![0u8; 15];
    back[2 * 5 + 3] = 1;
    back[1 * 5 + 2] = 2;
    assert_eq!(backtrack_states(&back, 3, 5, 3), vec![0, 2, 3]);
}

#[test]
fn spans_from_states() {
    // states: blank, a, a, blank, b  (a = state 1, b = state 3)
    let spans = states_to_token_spans(&[0, 1, 1, 2, 3], 3);
    assert_eq!(spans[0], TokenSpan { start: 1, end: 2 });
    assert_eq!(spans[1], TokenSpan { start: 4, end: 4 });
    // Token 2 never appears: empty span at the previous end.
    assert_eq!(spans[2], TokenSpan { start: 4, end: 4 });
}

#[test]
fn word_span_covers_its_tokens() {
    let spans = vec![TokenSpan { start: 3, end: 4 }, TokenSpan { start: 1, end: 2 }, TokenSpan { start: 5, end: 9 }];
    assert_eq!(aggregate_word_span(&spans, &(0..2)), TokenSpan { start: 1, end: 4 });
    assert_eq!(aggregate_word_span(&spans, &(2..2)), TokenSpan { start: 0, end: 0 });
}

#[test]
fn tokens_without_letters_are_not_aligned() {
    let vocab = fake_vocab();
    let seq = lyrics_to_target_ids("rock - roll", &vocab);
    let words: Vec<&str> = seq.words.iter().map(|w| w.word.as_str()).collect();
    assert_eq!(words, vec!["rock", "roll"]);
    assert_eq!(seq.ids.iter().filter(|&&id| id == vocab.delimiter_id).count(), 1);
    assert_eq!(count_alignable_words("rock - roll"), 2);
    // A hyphen inside a word with letters is kept.
    let seq = lyrics_to_target_ids("a-b", &vocab);
    assert_eq!(seq.ids, vec![5, 3, 6]);
}
