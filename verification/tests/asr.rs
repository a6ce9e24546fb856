use cologna_karaoke::asr::model_files_complete;
use cologna_karaoke::asr::tokens_to_words;

#[test]
fn punctuation_tokens_join_previous_word() {
    let texts: Vec<String> = vec!["Ciao".into(), ",".into(), " mondo".into(), ".".into()];
    let words = tokens_to_words(&texts);
    assert_eq!(words.len(), 2);
    assert_eq!(words[0], ("Ciao,".to_string(), 0));
    assert_eq!(words[1], ("mondo.".to_string(), 2));
}

#[test]
fn leading_punctuation_and_blank_tokens_are_dropped() {
    let texts: Vec<String> = vec!["¿".into(), "  ".into(), "qué".into(), "?!".into()];
    assert_eq!(tokens_to_words(&texts), vec![("qué?!".to_string(), 2)]);
}

#[test]
fn model_files_complete_needs_vocab_encoder_and_decoder() {
    assert!(model_files_complete(true, false, true, true, false));
    assert!(!model_files_complete(false, true, true, true, true));
    assert!(!model_files_complete(true, false, false, true, true));
    assert!(!model_files_complete(true, true, true, false, false));
}
