use cologna_karaoke::normalize::{normalize_lyrics, normalize_word};

#[test]
fn basic_strip() {
    assert_eq!(normalize_word("Ciao,"), vec!["ciao"]);
    assert_eq!(normalize_word("amore!"), vec!["amore"]);
}

#[test]
fn italian_contraction() {
    let r = normalize_word("dell'");
    assert!(r.contains(&"della".to_string()) || r.len() >= 1);
}

#[test]
fn english_contraction() {
    let r = normalize_word("don't");
    assert_eq!(r, vec!["do", "not"]);
}

#[test]
fn mapping_length() {
    let (orig, norm, map) = normalize_lyrics("don't cry tonight");
    assert_eq!(map.len(), orig.len());
    // "don't" expands to 2 tokens.
    assert_eq!(norm.len(), 4); // do, not, cry, tonight
}

#[test]
fn italian_prefix_contraction_keeps_rest_of_word() {
    // "l'" matches as a prefix: its expansion, then the rest of the word.
    assert_eq!(normalize_word("L'amore"), vec!["la", "amore"]);
    assert_eq!(normalize_word("dell'amore"), vec!["della", "amore"]);
    assert_eq!(normalize_word("dell'"), vec!["della"]);
    assert_eq!(normalize_word("c'è"), vec!["ci", "è"]);
}

#[test]
fn word_without_letters_gives_no_token() {
    assert!(normalize_word("123").is_empty());
    assert!(normalize_word("'''").is_empty());
    assert_eq!(normalize_word("'ciao'"), vec!["ciao"]);
}

#[test]
fn mapping_ranges_tile_tokens() {
    let (orig, norm, map) = normalize_lyrics("  I'm 42 happy  ");
    assert_eq!(orig, vec!["I'm", "42", "happy"]);
    assert_eq!(norm, vec!["i", "am", "happy"]);
    assert_eq!(map, vec![(0, 2), (2, 2), (2, 3)]);
}

#[test]
fn tokens_are_letters_and_inner_apostrophes() {
    for w in ["'Ciao'!", "po'", "l'amore,", "rock'n'roll", "--42--"] {
        for t in normalize_word(w) {
            assert!(!t.is_empty());
            assert!(t.chars().all(|c| c.is_alphabetic() || c == '\''));
            assert!(!t.starts_with('\'') && !t.ends_with('\''));
        }
    }
}

#[test]
fn normalized_words_have_at_most_two_lowercase_tokens() {
    assert_eq!(normalize_word("DON'T"), vec!["do", "not"]);
    assert_eq!(normalize_word("Dell'Amore"), vec!["della", "amore"]);
    assert!(normalize_word("42!").is_empty());
    // The one contraction whose expansion is two words, followed by more.
    assert_eq!(normalize_word("c'e'ra"), vec!["ci", "è", "ra"]);
}

#[test]
fn unicode_spaces_separate_words() {
    let (words, _, _) = normalize_lyrics("ciao\u{3000}amore\u{00A0}mio");
    assert_eq!(words, vec!["ciao", "amore", "mio"]);
}
