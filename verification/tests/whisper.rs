use cologna_karaoke::whisper::{
    decoder_sequence, first_vocal_gap, language_token, model_repo, n_mels_for, special_token_names_for,
    special_tokens_from_ids, token_word_indices, AlignError, SpecialTokens, WhisperModel,
};

#[test]
fn model_repos_and_mel_bins() {
    assert_eq!(model_repo(&WhisperModel::Small), "openai/whisper-small");
    assert_eq!(model_repo(&WhisperModel::LargeV3Turbo), "openai/whisper-large-v3-turbo");
    assert_eq!(n_mels_for(&WhisperModel::Medium), 80);
    assert_eq!(n_mels_for(&WhisperModel::LargeV3Turbo), 128);
}

#[test]
fn special_tokens_are_looked_up_in_order() {
    assert_eq!(language_token("it"), "<|it|>");
    let names = special_token_names_for("en");
    assert_eq!(names[3], "<|en|>");
    let ids = vec![Some(1), Some(2), Some(3), Some(4), Some(5)];
    let t = special_tokens_from_ids(&names, &ids).unwrap();
    assert_eq!(t, SpecialTokens { sot: 1, eot: 2, no_timestamps: 3, lang_id: 4, transcribe: 5 });
    let missing = vec![Some(1), Some(2), None, None, Some(5)];
    match special_tokens_from_ids(&names, &missing) {
        Err(AlignError::Tokenization(m)) => assert_eq!(m, "token not found: <|notimestamps|>"),
        other => panic!("unexpected {:?}", other),
    }
}

#[test]
fn decoder_sequence_wraps_content() {
    let t = SpecialTokens { sot: 1, eot: 2, no_timestamps: 3, lang_id: 4, transcribe: 5 };
    assert_eq!(decoder_sequence(&t, &[10, 11]), vec![1, 4, 5, 3, 10, 11, 2]);
}

#[test]
fn tokens_map_to_original_words_through_expansions() {
    // "don't cry": "don't" expands to two normalized words.
    let norm_map = vec![(0usize, 2usize), (2, 3)];
    let word_tokens = vec![vec![100u32], vec![101, 102], vec![103]];
    assert_eq!(token_word_indices(&norm_map, &word_tokens), vec![0, 0, 0, 1]);
}

#[test]
fn first_gap_after_the_voice_starts() {
    let q = |s: &str| s.chars().map(|c| c == '.').collect::<Vec<bool>>();
    // Leading silence is not a gap; a short pause is not one either.
    assert_eq!(first_vocal_gap(&q("........xx...xx........x")), Some(15));
    assert_eq!(first_vocal_gap(&q("xxxx.......x")), None);
    assert_eq!(first_vocal_gap(&q("............")), None);
    assert_eq!(first_vocal_gap(&q("x........")), Some(1));
}
