//! Decisions of the alignment step: the language of the lyrics, whether
//! alignment has work to do, and the LRC generated for plain lyrics.
use vstd::prelude::*;

use crate::text::{
    ascii_lower, char_is_alphabetic, char_is_whitespace, chars_eq, chars_of, is_alphabetic,
    is_whitespace, split_whitespace_chars, split_ws,
};
use crate::word_timing::{
    generate_lrc, generated_lrc, line_texts, parse_lyrics, parse_lyrics_spec, starts_formattable,
    LyricsInput, WordEntry,
};

verus! {

/// Result of the alignment step (words.json itself is written to the song dir).
#[derive(Debug, Clone)]
pub struct AlignmentOutput {
    /// Synced LRC built from the word timings when the input lyrics were plain
    /// (unsynced) text; to be stored as the song's lyrics.
    pub generated_lrc: Option<String>,
}

// ───────────── language detection ─────────────

/// Stopwords per language (ISO-639-1 code first), in the order they are tried.
pub open spec fn stopword_table() -> Seq<(Seq<char>, Seq<Seq<char>>)> {
    seq![
        ("it"@, seq!["il"@, "la"@, "di"@, "che"@, "è"@, "e"@, "un"@, "una"@, "non"@, "per"@, "lo"@, "le"@, "dei"@, "gli"@, "con"@, "mi"@, "ti"@, "ci"@, "si"@, "ma"@, "come"@, "sono"@, "ha"@, "mia"@, "suo"@, "sua"@, "però"@, "così"@, "più"@, "giorno"@, "mare"@, "nome"@]),
        ("en"@, seq!["the"@, "and"@, "of"@, "to"@, "in"@, "is"@, "you"@, "that"@, "it"@, "was"@, "for"@, "on"@, "are"@, "with"@, "as"@, "at"@, "be"@, "this"@, "have"@, "from"@, "or"@, "but"@, "we"@, "they"@, "will"@, "my"@, "your"@, "his"@, "her"@]),
        ("es"@, seq!["el"@, "la"@, "de"@, "que"@, "y"@, "en"@, "un"@, "una"@, "ser"@, "se"@, "no"@, "por"@, "con"@, "su"@, "para"@, "como"@, "está"@, "tiene"@, "es"@, "pero"@, "más"@, "todo"@, "mi"@]),
        ("fr"@, seq!["le"@, "la"@, "les"@, "de"@, "un"@, "une"@, "et"@, "est"@, "en"@, "que"@, "dans"@, "pour"@, "sur"@, "pas"@, "il"@, "elle"@, "je"@, "tu"@, "nous"@, "vous"@, "mais"@, "qui"@, "où"@]),
        ("pt"@, seq!["o"@, "a"@, "de"@, "que"@, "e"@, "do"@, "da"@, "em"@, "um"@, "uma"@, "para"@, "é"@, "com"@, "não"@, "os"@, "as"@, "se"@, "por"@, "mais"@, "mas"@]),
        ("de"@, seq!["der"@, "die"@, "das"@, "und"@, "ist"@, "in"@, "zu"@, "ein"@, "eine"@, "nicht"@, "mit"@, "sich"@, "auf"@, "auch"@, "es"@, "an"@, "als"@, "bei"@, "ich"@, "du"@, "er"@, "sie"@]),
    ]
}

fn stopwords() -> (r: Vec<(&'static str, Vec<&'static str>)>)
    ensures
        r@.len() == stopword_table().len(),
        forall|k: int|
            0 <= k < r@.len() ==> (#[trigger] r@[k]).0@ == stopword_table()[k].0 && r@[k].1@.map_values(
                |w: &'static str| w@,
            ) == stopword_table()[k].1,
{
    let r = vec![
        ("it", vec!["il", "la", "di", "che", "è", "e", "un", "una", "non", "per", "lo", "le", "dei", "gli", "con", "mi", "ti", "ci", "si", "ma", "come", "sono", "ha", "mia", "suo", "sua", "però", "così", "più", "giorno", "mare", "nome"]),
        ("en", vec!["the", "and", "of", "to", "in", "is", "you", "that", "it", "was", "for", "on", "are", "with", "as", "at", "be", "this", "have", "from", "or", "but", "we", "they", "will", "my", "your", "his", "her"]),
        ("es", vec!["el", "la", "de", "que", "y", "en", "un", "una", "ser", "se", "no", "por", "con", "su", "para", "como", "está", "tiene", "es", "pero", "más", "todo", "mi"]),
        ("fr", vec!["le", "la", "les", "de", "un", "une", "et", "est", "en", "que", "dans", "pour", "sur", "pas", "il", "elle", "je", "tu", "nous", "vous", "mais", "qui", "où"]),
        ("pt", vec!["o", "a", "de", "que", "e", "do", "da", "em", "um", "uma", "para", "é", "com", "não", "os", "as", "se", "por", "mais", "mas"]),
        ("de", vec!["der", "die", "das", "und", "ist", "in", "zu", "ein", "eine", "nicht", "mit", "sich", "auf", "auch", "es", "an", "als", "bei", "ich", "du", "er", "sie"]),
    ];
    proof {
        assert forall|k: int| 0 <= k < r@.len() implies (#[trigger] r@[k]).0@ == stopword_table()[k].0
            && r@[k].1@.map_values(|w: &'static str| w@) == stopword_table()[k].1 by {
            assert(r@[k].1@.map_values(|w: &'static str| w@) =~= stopword_table()[k].1);
        }
    }
    r
}

/// Letters and whitespace lower-cased (ASCII only), anything else a space.
pub open spec fn lang_normalized(text: Seq<char>) -> Seq<char> {
    text.map_values(
        |c: char|
            if is_alphabetic(c) || is_whitespace(c) {
                ascii_lower(c)
            } else {
                ' '
            },
    )
}

/// How many tokens are among `words`.
pub open spec fn hits(tokens: Seq<Seq<char>>, words: Seq<Seq<char>>) -> nat {
    tokens.filter(|t: Seq<char>| words.contains(t)).len()
}

/// Index and hit count of the best of the first `k` languages: the most hits,
/// the earlier language on a tie.
pub open spec fn best_language(tokens: Seq<Seq<char>>, k: int) -> (int, nat)
    decreases k,
{
    if k <= 1 {
        (0, hits(tokens, stopword_table()[0].1))
    } else {
        let prev = best_language(tokens, k - 1);
        let h = hits(tokens, stopword_table()[k - 1].1);
        if h > prev.1 {
            (k - 1, h)
        } else {
            prev
        }
    }
}

pub const MIN_LANGUAGE_TOKENS: usize = 5;

pub const MIN_LANGUAGE_HITS: usize = 3;

/// The language whose stopwords occur most often among the words of the
/// text, when there are at least five words and three hits.
pub open spec fn detected_language(text: Seq<char>) -> Option<Seq<char>> {
    let tokens = split_ws(lang_normalized(text));
    if tokens.len() < MIN_LANGUAGE_TOKENS {
        None
    } else {
        let best = best_language(tokens, stopword_table().len() as int);
        if best.1 >= MIN_LANGUAGE_HITS {
            Some(stopword_table()[best.0].0)
        } else {
            None
        }
    }
}

/// Stopword hits of language `j` among the tokens.
pub open spec fn lang_hits(tokens: Seq<Seq<char>>, j: int) -> nat {
    hits(tokens, stopword_table()[j].1)
}

proof fn lemma_best_language(tokens: Seq<Seq<char>>, k: int)
    requires
        1 <= k <= stopword_table().len(),
    ensures
        0 <= best_language(tokens, k).0 < k,
        best_language(tokens, k).1 == lang_hits(tokens, best_language(tokens, k).0),
        forall|j: int| 0 <= j < k ==> #[trigger] lang_hits(tokens, j) <= best_language(tokens, k).1,
        forall|j: int| 0 <= j < best_language(tokens, k).0 ==> #[trigger] lang_hits(tokens, j) < best_language(
            tokens,
            k,
        ).1,
    decreases k,
{
    if k > 1 {
        lemma_best_language(tokens, k - 1);
    }
}

/// The detected language is the first of the table (it, en, es, fr, pt, de)
/// with the most stopword hits among the text's words; there is one exactly
/// when the text has at least five words and some language at least three
/// hits.
pub proof fn law_detected_language_is_first_best(text: Seq<char>)
    ensures
        ({
            let tokens = split_ws(lang_normalized(text));
            &&& detected_language(text) is Some <==> tokens.len() >= MIN_LANGUAGE_TOKENS && exists|i: int|
                0 <= i < stopword_table().len() && #[trigger] lang_hits(tokens, i) >= MIN_LANGUAGE_HITS
            &&& detected_language(text) matches Some(code) ==> exists|i: int|
                0 <= i < stopword_table().len() && code == stopword_table()[i].0 && #[trigger] lang_hits(
                    tokens,
                    i,
                ) >= MIN_LANGUAGE_HITS && (forall|j: int|
                    0 <= j < stopword_table().len() ==> #[trigger] lang_hits(tokens, j) <= lang_hits(tokens, i))
                    && (forall|j: int| 0 <= j < i ==> #[trigger] lang_hits(tokens, j) < lang_hits(tokens, i))
        }),
{
    let tokens = split_ws(lang_normalized(text));
    let n = stopword_table().len() as int;
    lemma_best_language(tokens, n);
    let best = best_language(tokens, n);
    assert(lang_hits(tokens, best.0) == best.1);
}

fn normalize_for_language(text: &str) -> (r: Vec<char>)
    ensures
        r@ == lang_normalized(text@),
{
    let chars = chars_of(text);
    let mut out: Vec<char> = Vec::new();
    let mut i: usize = 0;
    while i < chars.len()
        invariant
            i <= chars@.len(),
            chars@ == text@,
            out@ == lang_normalized(chars@.take(i as int)),
        decreases chars@.len() - i,
    {
        let c = chars[i];
        let m = if char_is_alphabetic(c) || char_is_whitespace(c) {
            if 'A' <= c && c <= 'Z' {
                let code = (c as u32) + 32;
                (code as u8) as char
            } else {
                c
            }
        } else {
            ' '
        };
        out.push(m);
        assert(out@ =~= lang_normalized(chars@.take(i + 1)));
        i += 1;
    }
    assert(chars@.take(chars@.len() as int) =~= chars@);
    out
}

fn contains_word(words: &Vec<&'static str>, token: &Vec<char>) -> (r: bool)
    ensures
        r == words@.map_values(|w: &'static str| w@).contains(token@),
{
    let ghost ws = words@.map_values(|w: &'static str| w@);
    let mut i: usize = 0;
    while i < words.len()
        invariant
            i <= words@.len() == ws.len(),
            ws == words@.map_values(|w: &'static str| w@),
            forall|j: int| 0 <= j < i ==> ws[j] != token@,
        decreases words@.len() - i,
    {
        let w = chars_of(words[i]);
        if chars_eq(&w, token) {
            assert(ws[i as int] == token@);
            return true;
        }
        i += 1;
    }
    false
}

fn count_hits(tokens: &Vec<Vec<char>>, words: &Vec<&'static str>) -> (r: usize)
    ensures
        r == hits(tokens@.map_values(|t: Vec<char>| t@), words@.map_values(|w: &'static str| w@)),
{
    let ghost ts = tokens@.map_values(|t: Vec<char>| t@);
    let ghost ws = words@.map_values(|w: &'static str| w@);
    let ghost pred = |t: Seq<char>| ws.contains(t);
    let mut n: usize = 0;
    let mut i: usize = 0;
    while i < tokens.len()
        invariant
            i <= tokens@.len() == ts.len(),
            ts == tokens@.map_values(|t: Vec<char>| t@),
            ws == words@.map_values(|w: &'static str| w@),
            pred == (|t: Seq<char>| ws.contains(t)),
            n == ts.take(i as int).filter(pred).len(),
            n <= i,
        decreases tokens@.len() - i,
    {
        proof {
            assert(ts.take(i + 1) =~= ts.take(i as int).push(ts[i as int]));
            ts.take(i as int).lemma_filter_push(ts[i as int], pred);
        }
        if contains_word(words, &tokens[i]) {
            n += 1;
        }
        i += 1;
    }
    assert(ts.take(ts.len() as int) =~= ts);
    n
}

/// Detect the language of LRC text by counting stopword hits. Returns an
/// ISO-639-1 code, or `None` when there is no strong signal.
pub fn detect_lrc_language(lrc: &str) -> (r: Option<&'static str>)
    ensures
        r is None <==> detected_language(lrc@) is None,
        r matches Some(code) ==> detected_language(lrc@) == Some(code@),
{
    let normalized = normalize_for_language(lrc);
    let tokens = split_whitespace_chars(&normalized);
    let ghost ts = tokens@.map_values(|t: Vec<char>| t@);
    assert(ts == split_ws(lang_normalized(lrc@)));
    if tokens.len() < MIN_LANGUAGE_TOKENS {
        return None;
    }
    let table = stopwords();
    let mut best_idx: usize = 0;
    let mut best_hits: usize = count_hits(&tokens, &table[0].1);
    let mut k: usize = 1;
    while k < table.len()
        invariant
            1 <= k <= table@.len() == stopword_table().len(),
            ts == tokens@.map_values(|t: Vec<char>| t@),
            forall|j: int|
                0 <= j < table@.len() ==> (#[trigger] table@[j]).0@ == stopword_table()[j].0
                    && table@[j].1@.map_values(|w: &'static str| w@) == stopword_table()[j].1,
            best_language(ts, k as int) == (best_idx as int, best_hits as nat),
            best_idx < k,
        decreases table@.len() - k,
    {
        let h = count_hits(&tokens, &table[k].1);
        if h > best_hits {
            best_idx = k;
            best_hits = h;
        }
        k += 1;
    }
    if best_hits >= MIN_LANGUAGE_HITS {
        Some(table[best_idx].0)
    } else {
        None
    }
}

// ───────────── alignment decisions ─────────────

/// Whether the alignment step needs the decoded vocals: no cached words.json
/// and some lyrics to align against.
pub fn alignment_needed(words_cached: bool, lrc: Option<&str>) -> (r: bool)
    ensures
        r == (!words_cached && (lrc matches Some(t) && parse_lyrics_spec(t@) is Some)),
{
    if words_cached {
        return false;
    }
    match lrc {
        Some(t) => parse_lyrics(t).is_some(),
        None => false,
    }
}

/// The LRC to store for lyrics that came without timestamps: generated from
/// the word timings when the lyrics were plain and some words were timed.
pub fn plain_lyrics_lrc(input: &LyricsInput, entries: &[WordEntry]) -> (r: Option<String>)
    requires
        starts_formattable(entries@),
    ensures
        r is Some <==> (!input.synced && entries@.len() > 0),
        r matches Some(lrc) ==> lrc@ == generated_lrc(
            line_texts(input.lines@),
            entries@,
            input.lines@.len() as int,
        ),
{
    if !input.synced && entries.len() > 0 {
        Some(generate_lrc(input.lines.as_slice(), entries))
    } else {
        None
    }
}

} // verus!
