//! Text normalisation for cross-attention alignment: each original word maps
//! to the canonical tokens used for matching (original words are kept
//! separately for display).
use vstd::prelude::*;

use crate::text::{
    all_ascii, ascii_lower, is_ascii, is_ascii_lower, is_ascii_upper, is_whitespace,
    apostrophe, char_is_alphabetic, chars_eq, chars_of, is_alphabetic, split_whitespace_chars, split_ws,
    starts_with, starts_with_chars, str_lowercase, str_to_lowercase, string_from_chars, trim,
    trim_apostrophes, trim_by, trim_chars, trim_end_by, trim_start_by,
};

verus! {

/// Common Italian contractions and their expansion.
pub open spec fn it_contractions() -> Seq<(Seq<char>, Seq<char>)> {
    seq![
        ("dell'"@, "della "@),
        ("dell'"@, "della "@),
        ("dell'"@, "della "@),
        ("all'"@, "alla "@),
        ("all'"@, "alla "@),
        ("all'"@, "alla "@),
        ("nell'"@, "nella "@),
        ("nell'"@, "nella "@),
        ("sull'"@, "sulla "@),
        ("sull'"@, "sulla "@),
        ("dall'"@, "dalla "@),
        ("dall'"@, "dalla "@),
        ("c'è"@, "ci è"@),
        ("c'e'"@, "ci è"@),
        ("po'"@, "poco"@),
        ("po'"@, "poco"@),
        ("n'"@, "ne "@),
        ("l'"@, "la "@),
        ("l'"@, "la "@),
        ("m'"@, "mi "@),
        ("t'"@, "ti "@),
        ("s'"@, "si "@),
        ("v'"@, "vi "@),
        ("d'"@, "di "@),
    ]
}

/// English contractions that may appear in Italian songs.
pub open spec fn en_contractions() -> Seq<(Seq<char>, Seq<char>)> {
    seq![
        ("i'm"@, "i am"@),
        ("i've"@, "i have"@),
        ("i'll"@, "i will"@),
        ("i'd"@, "i would"@),
        ("you're"@, "you are"@),
        ("you've"@, "you have"@),
        ("you'll"@, "you will"@),
        ("you'd"@, "you would"@),
        ("he's"@, "he is"@),
        ("she's"@, "she is"@),
        ("it's"@, "it is"@),
        ("we're"@, "we are"@),
        ("we've"@, "we have"@),
        ("we'll"@, "we will"@),
        ("they're"@, "they are"@),
        ("they've"@, "they have"@),
        ("they'll"@, "they will"@),
        ("don't"@, "do not"@),
        ("doesn't"@, "does not"@),
        ("didn't"@, "did not"@),
        ("won't"@, "will not"@),
        ("can't"@, "cannot"@),
        ("couldn't"@, "could not"@),
        ("shouldn't"@, "should not"@),
        ("wouldn't"@, "would not"@),
        ("isn't"@, "is not"@),
        ("aren't"@, "are not"@),
        ("wasn't"@, "was not"@),
        ("weren't"@, "were not"@),
        ("that's"@, "that is"@),
        ("what's"@, "what is"@),
        ("there's"@, "there is"@),
        ("here's"@, "here is"@),
        ("let's"@, "let us"@),
        ("'cause"@, "because"@),
        ("'em"@, "them"@),
        ("'til"@, "until"@),
    ]
}

fn it_contraction_table() -> (r: Vec<(&'static str, &'static str)>)
    ensures
        r@.len() == it_contractions().len(),
        forall|k: int| 0 <= k < r@.len() ==> (#[trigger] r@[k]).0@ == it_contractions()[k].0 && r@[k].1@ == it_contractions()[k].1,
{
    let r = vec![
        ("dell'", "della "),
        ("dell'", "della "),
        ("dell'", "della "),
        ("all'", "alla "),
        ("all'", "alla "),
        ("all'", "alla "),
        ("nell'", "nella "),
        ("nell'", "nella "),
        ("sull'", "sulla "),
        ("sull'", "sulla "),
        ("dall'", "dalla "),
        ("dall'", "dalla "),
        ("c'è", "ci è"),
        ("c'e'", "ci è"),
        ("po'", "poco"),
        ("po'", "poco"),
        ("n'", "ne "),
        ("l'", "la "),
        ("l'", "la "),
        ("m'", "mi "),
        ("t'", "ti "),
        ("s'", "si "),
        ("v'", "vi "),
        ("d'", "di "),
    ];
    proof {
        assert(r@.len() == it_contractions().len());
    }
    r
}

fn en_contraction_table() -> (r: Vec<(&'static str, &'static str)>)
    ensures
        r@.len() == en_contractions().len(),
        forall|k: int| 0 <= k < r@.len() ==> (#[trigger] r@[k]).0@ == en_contractions()[k].0 && r@[k].1@ == en_contractions()[k].1,
{
    let r = vec![
        ("i'm", "i am"),
        ("i've", "i have"),
        ("i'll", "i will"),
        ("i'd", "i would"),
        ("you're", "you are"),
        ("you've", "you have"),
        ("you'll", "you will"),
        ("you'd", "you would"),
        ("he's", "he is"),
        ("she's", "she is"),
        ("it's", "it is"),
        ("we're", "we are"),
        ("we've", "we have"),
        ("we'll", "we will"),
        ("they're", "they are"),
        ("they've", "they have"),
        ("they'll", "they will"),
        ("don't", "do not"),
        ("doesn't", "does not"),
        ("didn't", "did not"),
        ("won't", "will not"),
        ("can't", "cannot"),
        ("couldn't", "could not"),
        ("shouldn't", "should not"),
        ("wouldn't", "would not"),
        ("isn't", "is not"),
        ("aren't", "are not"),
        ("wasn't", "was not"),
        ("weren't", "were not"),
        ("that's", "that is"),
        ("what's", "what is"),
        ("there's", "there is"),
        ("here's", "here is"),
        ("let's", "let us"),
        ("'cause", "because"),
        ("'em", "them"),
        ("'til", "until"),
    ];
    proof {
        assert(r@.len() == en_contractions().len());
    }
    r
}

/// Views of a sequence of strings.
pub open spec fn strings_view(v: Seq<String>) -> Seq<Seq<char>> {
    v.map_values(|s: String| s@)
}

pub open spec fn alpha_or_apostrophe() -> spec_fn(char) -> bool {
    |c: char| is_alphabetic(c) || c == '\''
}

/// Alphabetic chars and apostrophes kept, then apostrophes trimmed at both ends.
pub open spec fn strip_non_alpha_spec(s: Seq<char>) -> Seq<char> {
    trim_by(s.filter(alpha_or_apostrophe()), apostrophe())
}

pub open spec fn stripper() -> spec_fn(Seq<char>) -> Seq<char> {
    |w: Seq<char>| strip_non_alpha_spec(w)
}

pub open spec fn non_empty() -> spec_fn(Seq<char>) -> bool {
    |t: Seq<char>| t.len() > 0
}

/// Tokens of a contraction's expansion: its whitespace-separated words,
/// stripped, empty ones dropped.
pub open spec fn expansion_tokens(e: Seq<char>) -> Seq<Seq<char>> {
    split_ws(e).map_values(stripper()).filter(non_empty())
}

/// First table entry (contraction, expansion) that `w` equals or (with
/// `prefix`) starts with.
pub open spec fn find_contraction(table: Seq<(Seq<char>, Seq<char>)>, w: Seq<char>, prefix: bool) -> Option<
    (Seq<char>, Seq<char>),
>
    decreases table.len(),
{
    if table.len() == 0 {
        None
    } else if w == table[0].0 || (prefix && starts_with(w, table[0].0)) {
        Some(table[0])
    } else {
        find_contraction(table.drop_first(), w, prefix)
    }
}

/// The word stripped of non-letters, as one token, or none when nothing
/// remains.
pub open spec fn stripped_token(w: Seq<char>) -> Seq<Seq<char>> {
    if strip_non_alpha_spec(w).len() == 0 {
        seq![]
    } else {
        seq![strip_non_alpha_spec(w)]
    }
}

/// Normalised tokens of one word: lower-cased and trimmed; an Italian
/// contraction (tried first, also as a prefix) expands to its tokens followed
/// by the stripped rest of the word ("dell'amore": "della", "amore"); an exact
/// English contraction expands to its tokens; otherwise the word stripped of
/// non-letters, if anything remains.
pub open spec fn normalize_word_spec(word: Seq<char>) -> Seq<Seq<char>> {
    let lower = trim(str_lowercase(word));
    match find_contraction(it_contractions(), lower, true) {
        Some((key, e)) => expansion_tokens(e) + stripped_token(lower.skip(key.len() as int)),
        None => match find_contraction(en_contractions(), lower, false) {
            Some((_, e)) => expansion_tokens(e),
            None => stripped_token(lower),
        },
    }
}

fn strip_non_alpha(s: &Vec<char>) -> (r: Vec<char>)
    ensures
        r@ == strip_non_alpha_spec(s@),
{
    let mut kept: Vec<char> = Vec::new();
    let mut i: usize = 0;
    while i < s.len()
        invariant
            i <= s@.len(),
            kept@ == s@.take(i as int).filter(alpha_or_apostrophe()),
        decreases s@.len() - i,
    {
        let c = s[i];
        proof {
            assert(s@.take(i + 1) =~= s@.take(i as int).push(c));
            s@.take(i as int).lemma_filter_push(c, alpha_or_apostrophe());
        }
        if char_is_alphabetic(c) || c == '\'' {
            kept.push(c);
        }
        i += 1;
    }
    proof {
        assert(s@.take(s@.len() as int) =~= s@);
    }
    trim_apostrophes(&kept)
}

/// Tokens of an expansion (see `expansion_tokens`).
fn tokens_of_expansion(e: &str) -> (r: Vec<String>)
    ensures
        strings_view(r@) == expansion_tokens(e@),
{
    let chars = chars_of(e);
    let pieces = split_whitespace_chars(&chars);
    let ghost sp = split_ws(chars@);
    let mut out: Vec<String> = Vec::new();
    let mut k: usize = 0;
    while k < pieces.len()
        invariant
            k <= pieces@.len() == sp.len(),
            sp == split_ws(chars@),
            forall|j: int| 0 <= j < pieces@.len() ==> (#[trigger] pieces@[j])@ == sp[j],
            strings_view(out@) == sp.take(k as int).map_values(stripper()).filter(non_empty()),
        decreases pieces@.len() - k,
    {
        let t = strip_non_alpha(&pieces[k]);
        proof {
            let pre = sp.take(k as int);
            assert(sp.take(k + 1) =~= pre.push(sp[k as int]));
            assert(pre.push(sp[k as int]).map_values(stripper()) =~= pre.map_values(stripper()).push(
                t@,
            ));
            pre.map_values(stripper()).lemma_filter_push(t@, non_empty());
        }
        if t.len() > 0 {
            let ts = string_from_chars(&t);
            proof {
                assert(strings_view(out@.push(ts)) =~= strings_view(out@).push(ts@));
            }
            out.push(ts);
        }
        k += 1;
    }
    proof {
        assert(sp.take(sp.len() as int) =~= sp);
    }
    out
}

pub open spec fn table_view(r: Seq<(&str, &str)>) -> Seq<(Seq<char>, Seq<char>)> {
    r.map_values(|p: (&str, &str)| (p.0@, p.1@))
}

/// First matching entry (see `find_contraction`).
fn lookup_contraction(table: &Vec<(&'static str, &'static str)>, w: &Vec<char>, prefix: bool) -> (r:
    Option<(&'static str, &'static str)>)
    ensures
        match r {
            Some(p) => find_contraction(table_view(table@), w@, prefix)
                == Some((p.0@, p.1@)),
            None => find_contraction(table_view(table@), w@, prefix)
                is None,
        },
        r matches Some(p) ==> w@ == p.0@ || (prefix && starts_with(w@, p.0@)),
{
    let ghost t = table_view(table@);
    proof {
        assert(t.skip(0) =~= t);
    }
    let mut k: usize = 0;
    while k < table.len()
        invariant
            k <= table@.len() == t.len(),
            t == table_view(table@),
            find_contraction(t, w@, prefix) == find_contraction(t.skip(k as int), w@, prefix),
        decreases table@.len() - k,
    {
        let key = chars_of(table[k].0);
        let hit = chars_eq(w, &key) || (prefix && starts_with_chars(w, &key));
        proof {
            let rest = t.skip(k as int);
            assert(rest[0] == t[k as int]);
            assert(rest.drop_first() =~= t.skip(k + 1));
        }
        if hit {
            return Some(table[k]);
        }
        k += 1;
    }
    None
}

/// The stripped word as a token list (see `stripped_token`).
fn stripped_tokens(w: &Vec<char>) -> (r: Vec<String>)
    ensures
        strings_view(r@) == stripped_token(w@),
{
    let stripped = strip_non_alpha(w);
    let mut out: Vec<String> = Vec::new();
    if stripped.len() > 0 {
        out.push(string_from_chars(&stripped));
        proof {
            assert(strings_view(out@) =~= seq![stripped@]);
        }
    } else {
        proof {
            assert(strings_view(out@) =~= Seq::<Seq<char>>::empty());
        }
    }
    out
}

proof fn lemma_table_view(r: Seq<(&str, &str)>, table: Seq<(Seq<char>, Seq<char>)>)
    requires
        r.len() == table.len(),
        forall|k: int| 0 <= k < r.len() ==> (#[trigger] r[k]).0@ == table[k].0 && r[k].1@ == table[k].1,
    ensures
        table_view(r) == table,
{
    assert(table_view(r) =~= table);
}

/// Normalize a single word: lowercase, expand contraction, strip non-alpha.
/// Returns one or more normalized tokens (contractions expand to two words).
pub fn normalize_word(word: &str) -> (r: Vec<String>)
    ensures
        strings_view(r@) == normalize_word_spec(word@),
{
    let lower_s = str_to_lowercase(word);
    let lower_v = chars_of(lower_s.as_str());
    let lower = trim_chars(&lower_v);

    let it = it_contraction_table();
    proof {
        lemma_table_view(it@, it_contractions());
    }
    if let Some((key, e)) = lookup_contraction(&it, &lower, true) {
        let key_len = chars_of(key).len();
        assert(key_len <= lower@.len());
        let mut rest: Vec<char> = Vec::new();
        let mut i: usize = key_len;
        while i < lower.len()
            invariant
                key_len <= i <= lower@.len(),
                rest@ == lower@.subrange(key_len as int, i as int),
            decreases lower@.len() - i,
        {
            rest.push(lower[i]);
            i += 1;
            assert(rest@ =~= lower@.subrange(key_len as int, i as int));
        }
        let mut out = tokens_of_expansion(e);
        let mut tail = stripped_tokens(&rest);
        let ghost head = strings_view(out@);
        let ghost tv = strings_view(tail@);
        out.append(&mut tail);
        proof {
            assert(key@.len() == key_len);
            assert(rest@ =~= lower@.skip(key_len as int));
            assert(strings_view(out@) =~= head + tv);
        }
        return out;
    }
    let en = en_contraction_table();
    proof {
        lemma_table_view(en@, en_contractions());
    }
    if let Some((_, e)) = lookup_contraction(&en, &lower, false) {
        return tokens_of_expansion(e);
    }
    stripped_tokens(&lower)
}

pub open spec fn word_normalizer() -> spec_fn(Seq<char>) -> Seq<Seq<char>> {
    |w: Seq<char>| normalize_word_spec(w)
}

/// Normalised token stream of a lyrics text: every word's tokens in order.
pub open spec fn normalized_tokens(words: Seq<Seq<char>>) -> Seq<Seq<char>> {
    words.map_values(word_normalizer()).flatten()
}

/// Normalize a full lyrics string. Returns (original_words, normalized_tokens,
/// mapping) where `mapping[i]` is the range `[start, end)` of normalized tokens
/// that correspond to original word `i`.
pub fn normalize_lyrics(lyrics: &str) -> (r: (Vec<String>, Vec<String>, Vec<(usize, usize)>))
    ensures
        strings_view(r.0@) == split_ws(lyrics@),
        strings_view(r.1@) == normalized_tokens(split_ws(lyrics@)),
        r.2@.len() == r.0@.len(),
        forall|i: int|
            0 <= i < r.2@.len() ==> {
                &&& (#[trigger] r.2@[i]).0 == normalized_tokens(split_ws(lyrics@).take(i)).len()
                &&& r.2@[i].1 == normalized_tokens(split_ws(lyrics@).take(i + 1)).len()
            },
{
    let chars = chars_of(lyrics);
    let pieces = split_whitespace_chars(&chars);
    let ghost sp = split_ws(chars@);
    let mut original: Vec<String> = Vec::new();
    let mut normalized: Vec<String> = Vec::new();
    let mut mapping: Vec<(usize, usize)> = Vec::new();
    let mut k: usize = 0;
    while k < pieces.len()
        invariant
            k <= pieces@.len() == sp.len(),
            sp == split_ws(lyrics@),
            forall|j: int| 0 <= j < pieces@.len() ==> (#[trigger] pieces@[j])@ == sp[j],
            strings_view(original@) == sp.take(k as int),
            strings_view(normalized@) == normalized_tokens(sp.take(k as int)),
            mapping@.len() == k,
            forall|i: int|
                0 <= i < k ==> {
                    &&& (#[trigger] mapping@[i]).0 == normalized_tokens(sp.take(i)).len()
                    &&& mapping@[i].1 == normalized_tokens(sp.take(i + 1)).len()
                },
        decreases pieces@.len() - k,
    {
        let word = string_from_chars(&pieces[k]);
        let start = normalized.len();
        let tokens = normalize_word(word.as_str());
        let ghost before = strings_view(normalized@);
        let mut j: usize = 0;
        while j < tokens.len()
            invariant
                j <= tokens@.len(),
                strings_view(normalized@) == before + strings_view(tokens@).take(j as int),
            decreases tokens@.len() - j,
        {
            let t = tokens[j].clone();
            proof {
                assert(strings_view(normalized@.push(t)) =~= strings_view(normalized@).push(t@));
                assert(strings_view(tokens@).take(j + 1) =~= strings_view(tokens@).take(j as int).push(
                    t@,
                ));
            }
            normalized.push(t);
            j += 1;
        }
        let end = normalized.len();
        proof {
            let pre = sp.take(k as int);
            assert(sp.take(k + 1) =~= pre.push(sp[k as int]));
            assert(pre.push(sp[k as int]).map_values(word_normalizer()) =~= pre.map_values(
                word_normalizer(),
            ).push(normalize_word_spec(sp[k as int])));
            pre.map_values(word_normalizer()).lemma_flatten_push(normalize_word_spec(sp[k as int]));
            assert(strings_view(tokens@).take(tokens@.len() as int) =~= strings_view(tokens@));
            assert(strings_view(original@.push(word)) =~= strings_view(original@).push(word@));
        }
        original.push(word);
        mapping.push((start, end));
        k += 1;
    }
    proof {
        assert(sp.take(sp.len() as int) =~= sp);
    }
    (original, normalized, mapping)
}

/// The mapping of `normalize_lyrics` tiles the normalised tokens: ranges are
/// consecutive, start at 0, end at the token count, and range `i` holds exactly
/// the tokens of word `i`.
pub proof fn law_normalize_mapping_tiles(words: Seq<Seq<char>>, i: int)
    requires
        0 <= i < words.len(),
    ensures
        normalized_tokens(words.take(0)).len() == 0,
        normalized_tokens(words.take(words.len() as int)) == normalized_tokens(words),
        normalized_tokens(words).subrange(
            normalized_tokens(words.take(i)).len() as int,
            normalized_tokens(words.take(i + 1)).len() as int,
        ) == normalize_word_spec(words[i]),
{
    assert(words.take(0).map_values(word_normalizer()) =~= Seq::<Seq<Seq<char>>>::empty());
    assert(words.take(words.len() as int) =~= words);
    let a = words.take(i);
    let b = words.take(i + 1);
    assert(b =~= a.push(words[i]));
    assert(b.map_values(word_normalizer()) =~= a.map_values(word_normalizer()).push(
        normalize_word_spec(words[i]),
    ));
    a.map_values(word_normalizer()).lemma_flatten_push(normalize_word_spec(words[i]));
    lemma_tokens_prefix(words, i + 1);
    let fa = normalized_tokens(a);
    let fb = normalized_tokens(b);
    let all = normalized_tokens(words);
    assert(all.subrange(fa.len() as int, fb.len() as int) =~= fb.subrange(
        fa.len() as int,
        fb.len() as int,
    ));
    assert(fb.subrange(fa.len() as int, fb.len() as int) =~= normalize_word_spec(words[i]));
}

/// The tokens of a prefix of the words are a prefix of all tokens.
proof fn lemma_tokens_prefix(words: Seq<Seq<char>>, n: int)
    requires
        0 <= n <= words.len(),
    ensures
        normalized_tokens(words.take(n)).len() <= normalized_tokens(words).len(),
        normalized_tokens(words) .take(normalized_tokens(words.take(n)).len() as int)
            == normalized_tokens(words.take(n)),
    decreases words.len() - n,
{
    if n == words.len() {
        assert(words.take(n) =~= words);
        assert(normalized_tokens(words).take(normalized_tokens(words).len() as int) =~= normalized_tokens(
            words,
        ));
    } else {
        lemma_tokens_prefix(words, n + 1);
        let a = words.take(n);
        let b = words.take(n + 1);
        assert(b =~= a.push(words[n]));
        assert(b.map_values(word_normalizer()) =~= a.map_values(word_normalizer()).push(
            normalize_word_spec(words[n]),
        ));
        a.map_values(word_normalizer()).lemma_flatten_push(normalize_word_spec(words[n]));
        let fa = normalized_tokens(a);
        let fb = normalized_tokens(b);
        let all = normalized_tokens(words);
        assert(all.take(fa.len() as int) =~= fb.take(fa.len() as int));
        assert(fb.take(fa.len() as int) =~= fa);
    }
}

/// A clean token: non-empty, only letters and apostrophes, no apostrophe at
/// either end.
pub open spec fn clean_token(t: Seq<char>) -> bool {
    &&& t.len() > 0
    &&& forall|k: int| 0 <= k < t.len() ==> is_alphabetic(#[trigger] t[k]) || t[k] == '\''
    &&& t[0] != '\''
    &&& t.last() != '\''
}

proof fn lemma_trim_start_suffix(s: Seq<char>, p: spec_fn(char) -> bool)
    ensures
        trim_start_by(s, p).len() <= s.len(),
        trim_start_by(s, p) == s.skip(s.len() - trim_start_by(s, p).len()),
        trim_start_by(s, p).len() > 0 ==> !p(trim_start_by(s, p)[0]),
        forall|k: int| 0 <= k < s.len() - trim_start_by(s, p).len() ==> p(#[trigger] s[k]),
    decreases s.len(),
{
    if s.len() > 0 && p(s[0]) {
        lemma_trim_start_suffix(s.drop_first(), p);
        let r = trim_start_by(s.drop_first(), p);
        assert(s.drop_first().skip(s.drop_first().len() - r.len()) =~= s.skip(s.len() - r.len()));
        assert forall|k: int| 0 <= k < s.len() - r.len() implies p(#[trigger] s[k]) by {
            if k > 0 {
                assert(s[k] == s.drop_first()[k - 1]);
            }
        }
    } else {
        assert(s.skip(0) =~= s);
    }
}

proof fn lemma_trim_end_prefix(s: Seq<char>, p: spec_fn(char) -> bool)
    ensures
        trim_end_by(s, p).len() <= s.len(),
        trim_end_by(s, p) == s.take(trim_end_by(s, p).len() as int),
        trim_end_by(s, p).len() > 0 ==> !p(trim_end_by(s, p).last()),
        forall|k: int| trim_end_by(s, p).len() <= k < s.len() ==> p(#[trigger] s[k]),
    decreases s.len(),
{
    if s.len() > 0 && p(s.last()) {
        lemma_trim_end_prefix(s.drop_last(), p);
        let r = trim_end_by(s.drop_last(), p);
        assert(s.drop_last().take(r.len() as int) =~= s.take(r.len() as int));
        assert forall|k: int| r.len() <= k < s.len() implies p(#[trigger] s[k]) by {
            if k < s.len() - 1 {
                assert(s[k] == s.drop_last()[k]);
            }
        }
    } else {
        assert(s.take(s.len() as int) =~= s);
    }
}

proof fn lemma_strip_clean(x: Seq<char>)
    requires
        strip_non_alpha_spec(x).len() > 0,
    ensures
        clean_token(strip_non_alpha_spec(x)),
{
    let f = x.filter(alpha_or_apostrophe());
    lemma_trim_start_suffix(f, apostrophe());
    let a = trim_start_by(f, apostrophe());
    lemma_trim_end_prefix(a, apostrophe());
    let t = trim_end_by(a, apostrophe());
    let off = f.len() - a.len();
    assert forall|k: int| 0 <= k < t.len() implies is_alphabetic(#[trigger] t[k]) || t[k] == '\'' by {
        assert(t[k] == a[k]);
        assert(a[k] == f[k + off]);
        x.lemma_filter_pred(alpha_or_apostrophe(), k + off);
    }
    assert(t[0] == a[0]);
}

/// Every token of a normalised word is clean: non-empty, made of letters and
/// apostrophes only, with no apostrophe at either end.
pub proof fn law_normalized_tokens_clean(word: Seq<char>, i: int)
    requires
        0 <= i < normalize_word_spec(word).len(),
    ensures
        clean_token(normalize_word_spec(word)[i]),
{
    let lower = trim(str_lowercase(word));
    match find_contraction(it_contractions(), lower, true) {
        Some((key, e)) => {
            let x = expansion_tokens(e);
            let y = stripped_token(lower.skip(key.len() as int));
            if i < x.len() {
                assert(normalize_word_spec(word)[i] == x[i]);
                lemma_expansion_clean(e, i);
            } else {
                assert(normalize_word_spec(word)[i] == y[i - x.len()]);
                lemma_strip_clean(lower.skip(key.len() as int));
            }
        },
        None => match find_contraction(en_contractions(), lower, false) {
            Some((_, e)) => {
                lemma_expansion_clean(e, i);
            },
            None => {
                lemma_strip_clean(lower);
            },
        },
    }
}

proof fn lemma_expansion_clean(e: Seq<char>, i: int)
    requires
        0 <= i < expansion_tokens(e).len(),
    ensures
        clean_token(expansion_tokens(e)[i]),
{
    let m = split_ws(e).map_values(stripper());
    let t = expansion_tokens(e)[i];
    assert(t == m.filter(non_empty())[i]);
    assert(m.filter(non_empty()).contains(t));
    m.lemma_filter_contains_rev(non_empty(), t);
    let j = choose|j: int| 0 <= j < m.len() && m[j] == t;
    assert(t == strip_non_alpha_spec(split_ws(e)[j]));
    lemma_strip_clean(split_ws(e)[j]);
}

/// Lower-case ASCII letters only, at least one.
pub open spec fn ascii_word(a: Seq<char>) -> bool {
    a.len() > 0 && forall|k: int| 0 <= k < a.len() ==> is_ascii_lower(#[trigger] a[k])
}

/// An expansion that is one word, possibly followed by a space.
pub open spec fn one_word(e: Seq<char>) -> bool {
    ascii_word(e) || (e.len() >= 2 && e.last() == ' ' && ascii_word(e.drop_last()))
}

/// An expansion of two words split by the space at `i`: the first lower-case
/// ASCII letters, the second without whitespace or ASCII upper-case.
pub open spec fn two_words_at(e: Seq<char>, i: int) -> bool {
    &&& 0 < i < e.len() - 1
    &&& e[i] == ' '
    &&& ascii_word(e.take(i))
    &&& forall|k: int| i < k < e.len() ==> !is_whitespace(#[trigger] e[k]) && !is_ascii_upper(e[k])
}

/// What the normaliser needs of a table entry: the contraction holds an ASCII
/// letter, and the expansion is one word or two.
pub open spec fn entry_facts(entry: (Seq<char>, Seq<char>)) -> bool {
    &&& exists|i: int| 0 <= i < entry.0.len() && is_ascii_lower(#[trigger] entry.0[i])
    &&& (one_word(entry.1) || exists|i: int| two_words_at(entry.1, i))
}

proof fn lemma_it_entry_facts(k: int)
    requires
        0 <= k < it_contractions().len(),
    ensures
        entry_facts(it_contractions()[k]),
        one_word(it_contractions()[k].1) || it_contractions()[k].0 == "c'è"@ || it_contractions()[k].0
            == "c'e'"@,
{
    reveal_strlit("dell'");
    reveal_strlit("della ");
    reveal_strlit("all'");
    reveal_strlit("alla ");
    reveal_strlit("nell'");
    reveal_strlit("nella ");
    reveal_strlit("sull'");
    reveal_strlit("sulla ");
    reveal_strlit("dall'");
    reveal_strlit("dalla ");
    reveal_strlit("c'è");
    reveal_strlit("ci è");
    reveal_strlit("c'e'");
    reveal_strlit("ci è");
    reveal_strlit("po'");
    reveal_strlit("poco");
    reveal_strlit("n'");
    reveal_strlit("ne ");
    reveal_strlit("l'");
    reveal_strlit("la ");
    reveal_strlit("m'");
    reveal_strlit("mi ");
    reveal_strlit("t'");
    reveal_strlit("ti ");
    reveal_strlit("s'");
    reveal_strlit("si ");
    reveal_strlit("v'");
    reveal_strlit("vi ");
    reveal_strlit("d'");
    reveal_strlit("di ");
    if k == 0 {
        assert(it_contractions()[0] == ("dell'"@, "della "@));
        assert(is_ascii_lower("dell'"@[0]));
        assert(one_word("della "@));
        assert(is_ascii_lower(it_contractions()[0].0[0]));
        assert(entry_facts(it_contractions()[0]));
    }
    if k == 1 {
        assert(it_contractions()[1] == ("dell'"@, "della "@));
        assert(is_ascii_lower("dell'"@[0]));
        assert(one_word("della "@));
        assert(is_ascii_lower(it_contractions()[1].0[0]));
        assert(entry_facts(it_contractions()[1]));
    }
    if k == 2 {
        assert(it_contractions()[2] == ("dell'"@, "della "@));
        assert(is_ascii_lower("dell'"@[0]));
        assert(one_word("della "@));
        assert(is_ascii_lower(it_contractions()[2].0[0]));
        assert(entry_facts(it_contractions()[2]));
    }
    if k == 3 {
        assert(it_contractions()[3] == ("all'"@, "alla "@));
        assert(is_ascii_lower("all'"@[0]));
        assert(one_word("alla "@));
        assert(is_ascii_lower(it_contractions()[3].0[0]));
        assert(entry_facts(it_contractions()[3]));
    }
    if k == 4 {
        assert(it_contractions()[4] == ("all'"@, "alla "@));
        assert(is_ascii_lower("all'"@[0]));
        assert(one_word("alla "@));
        assert(is_ascii_lower(it_contractions()[4].0[0]));
        assert(entry_facts(it_contractions()[4]));
    }
    if k == 5 {
        assert(it_contractions()[5] == ("all'"@, "alla "@));
        assert(is_ascii_lower("all'"@[0]));
        assert(one_word("alla "@));
        assert(is_ascii_lower(it_contractions()[5].0[0]));
        assert(entry_facts(it_contractions()[5]));
    }
    if k == 6 {
        assert(it_contractions()[6] == ("nell'"@, "nella "@));
        assert(is_ascii_lower("nell'"@[0]));
        assert(one_word("nella "@));
        assert(is_ascii_lower(it_contractions()[6].0[0]));
        assert(entry_facts(it_contractions()[6]));
    }
    if k == 7 {
        assert(it_contractions()[7] == ("nell'"@, "nella "@));
        assert(is_ascii_lower("nell'"@[0]));
        assert(one_word("nella "@));
        assert(is_ascii_lower(it_contractions()[7].0[0]));
        assert(entry_facts(it_contractions()[7]));
    }
    if k == 8 {
        assert(it_contractions()[8] == ("sull'"@, "sulla "@));
        assert(is_ascii_lower("sull'"@[0]));
        assert(one_word("sulla "@));
        assert(is_ascii_lower(it_contractions()[8].0[0]));
        assert(entry_facts(it_contractions()[8]));
    }
    if k == 9 {
        assert(it_contractions()[9] == ("sull'"@, "sulla "@));
        assert(is_ascii_lower("sull'"@[0]));
        assert(one_word("sulla "@));
        assert(is_ascii_lower(it_contractions()[9].0[0]));
        assert(entry_facts(it_contractions()[9]));
    }
    if k == 10 {
        assert(it_contractions()[10] == ("dall'"@, "dalla "@));
        assert(is_ascii_lower("dall'"@[0]));
        assert(one_word("dalla "@));
        assert(is_ascii_lower(it_contractions()[10].0[0]));
        assert(entry_facts(it_contractions()[10]));
    }
    if k == 11 {
        assert(it_contractions()[11] == ("dall'"@, "dalla "@));
        assert(is_ascii_lower("dall'"@[0]));
        assert(one_word("dalla "@));
        assert(is_ascii_lower(it_contractions()[11].0[0]));
        assert(entry_facts(it_contractions()[11]));
    }
    if k == 12 {
        assert(it_contractions()[12] == ("c'è"@, "ci è"@));
        assert(is_ascii_lower("c'è"@[0]));
        assert(two_words_at("ci è"@, 2));
        assert(is_ascii_lower(it_contractions()[12].0[0]));
        assert(two_words_at(it_contractions()[12].1, 2));
        assert(entry_facts(it_contractions()[12]));
    }
    if k == 13 {
        assert(it_contractions()[13] == ("c'e'"@, "ci è"@));
        assert(is_ascii_lower("c'e'"@[0]));
        assert(two_words_at("ci è"@, 2));
        assert(is_ascii_lower(it_contractions()[13].0[0]));
        assert(two_words_at(it_contractions()[13].1, 2));
        assert(entry_facts(it_contractions()[13]));
    }
    if k == 14 {
        assert(it_contractions()[14] == ("po'"@, "poco"@));
        assert(is_ascii_lower("po'"@[0]));
        assert(one_word("poco"@));
        assert(is_ascii_lower(it_contractions()[14].0[0]));
        assert(entry_facts(it_contractions()[14]));
    }
    if k == 15 {
        assert(it_contractions()[15] == ("po'"@, "poco"@));
        assert(is_ascii_lower("po'"@[0]));
        assert(one_word("poco"@));
        assert(is_ascii_lower(it_contractions()[15].0[0]));
        assert(entry_facts(it_contractions()[15]));
    }
    if k == 16 {
        assert(it_contractions()[16] == ("n'"@, "ne "@));
        assert(is_ascii_lower("n'"@[0]));
        assert(one_word("ne "@));
        assert(is_ascii_lower(it_contractions()[16].0[0]));
        assert(entry_facts(it_contractions()[16]));
    }
    if k == 17 {
        assert(it_contractions()[17] == ("l'"@, "la "@));
        assert(is_ascii_lower("l'"@[0]));
        assert(one_word("la "@));
        assert(is_ascii_lower(it_contractions()[17].0[0]));
        assert(entry_facts(it_contractions()[17]));
    }
    if k == 18 {
        assert(it_contractions()[18] == ("l'"@, "la "@));
        assert(is_ascii_lower("l'"@[0]));
        assert(one_word("la "@));
        assert(is_ascii_lower(it_contractions()[18].0[0]));
        assert(entry_facts(it_contractions()[18]));
    }
    if k == 19 {
        assert(it_contractions()[19] == ("m'"@, "mi "@));
        assert(is_ascii_lower("m'"@[0]));
        assert(one_word("mi "@));
        assert(is_ascii_lower(it_contractions()[19].0[0]));
        assert(entry_facts(it_contractions()[19]));
    }
    if k == 20 {
        assert(it_contractions()[20] == ("t'"@, "ti "@));
        assert(is_ascii_lower("t'"@[0]));
        assert(one_word("ti "@));
        assert(is_ascii_lower(it_contractions()[20].0[0]));
        assert(entry_facts(it_contractions()[20]));
    }
    if k == 21 {
        assert(it_contractions()[21] == ("s'"@, "si "@));
        assert(is_ascii_lower("s'"@[0]));
        assert(one_word("si "@));
        assert(is_ascii_lower(it_contractions()[21].0[0]));
        assert(entry_facts(it_contractions()[21]));
    }
    if k == 22 {
        assert(it_contractions()[22] == ("v'"@, "vi "@));
        assert(is_ascii_lower("v'"@[0]));
        assert(one_word("vi "@));
        assert(is_ascii_lower(it_contractions()[22].0[0]));
        assert(entry_facts(it_contractions()[22]));
    }
    if k == 23 {
        assert(it_contractions()[23] == ("d'"@, "di "@));
        assert(is_ascii_lower("d'"@[0]));
        assert(one_word("di "@));
        assert(is_ascii_lower(it_contractions()[23].0[0]));
        assert(entry_facts(it_contractions()[23]));
    }
}

proof fn lemma_en_entry_facts(k: int)
    requires
        0 <= k < en_contractions().len(),
    ensures
        entry_facts(en_contractions()[k]),
{
    reveal_strlit("i'm");
    reveal_strlit("i am");
    reveal_strlit("i've");
    reveal_strlit("i have");
    reveal_strlit("i'll");
    reveal_strlit("i will");
    reveal_strlit("i'd");
    reveal_strlit("i would");
    reveal_strlit("you're");
    reveal_strlit("you are");
    reveal_strlit("you've");
    reveal_strlit("you have");
    reveal_strlit("you'll");
    reveal_strlit("you will");
    reveal_strlit("you'd");
    reveal_strlit("you would");
    reveal_strlit("he's");
    reveal_strlit("he is");
    reveal_strlit("she's");
    reveal_strlit("she is");
    reveal_strlit("it's");
    reveal_strlit("it is");
    reveal_strlit("we're");
    reveal_strlit("we are");
    reveal_strlit("we've");
    reveal_strlit("we have");
    reveal_strlit("we'll");
    reveal_strlit("we will");
    reveal_strlit("they're");
    reveal_strlit("they are");
    reveal_strlit("they've");
    reveal_strlit("they have");
    reveal_strlit("they'll");
    reveal_strlit("they will");
    reveal_strlit("don't");
    reveal_strlit("do not");
    reveal_strlit("doesn't");
    reveal_strlit("does not");
    reveal_strlit("didn't");
    reveal_strlit("did not");
    reveal_strlit("won't");
    reveal_strlit("will not");
    reveal_strlit("can't");
    reveal_strlit("cannot");
    reveal_strlit("couldn't");
    reveal_strlit("could not");
    reveal_strlit("shouldn't");
    reveal_strlit("should not");
    reveal_strlit("wouldn't");
    reveal_strlit("would not");
    reveal_strlit("isn't");
    reveal_strlit("is not");
    reveal_strlit("aren't");
    reveal_strlit("are not");
    reveal_strlit("wasn't");
    reveal_strlit("was not");
    reveal_strlit("weren't");
    reveal_strlit("were not");
    reveal_strlit("that's");
    reveal_strlit("that is");
    reveal_strlit("what's");
    reveal_strlit("what is");
    reveal_strlit("there's");
    reveal_strlit("there is");
    reveal_strlit("here's");
    reveal_strlit("here is");
    reveal_strlit("let's");
    reveal_strlit("let us");
    reveal_strlit("'cause");
    reveal_strlit("because");
    reveal_strlit("'em");
    reveal_strlit("them");
    reveal_strlit("'til");
    reveal_strlit("until");
    if k == 0 {
        assert(en_contractions()[0] == ("i'm"@, "i am"@));
        assert(is_ascii_lower("i'm"@[0]));
        assert(two_words_at("i am"@, 1));
        assert(is_ascii_lower(en_contractions()[0].0[0]));
        assert(two_words_at(en_contractions()[0].1, 1));
        assert(entry_facts(en_contractions()[0]));
    }
    if k == 1 {
        assert(en_contractions()[1] == ("i've"@, "i have"@));
        assert(is_ascii_lower("i've"@[0]));
        assert(two_words_at("i have"@, 1));
        assert(is_ascii_lower(en_contractions()[1].0[0]));
        assert(two_words_at(en_contractions()[1].1, 1));
        assert(entry_facts(en_contractions()[1]));
    }
    if k == 2 {
        assert(en_contractions()[2] == ("i'll"@, "i will"@));
        assert(is_ascii_lower("i'll"@[0]));
        assert(two_words_at("i will"@, 1));
        assert(is_ascii_lower(en_contractions()[2].0[0]));
        assert(two_words_at(en_contractions()[2].1, 1));
        assert(entry_facts(en_contractions()[2]));
    }
    if k == 3 {
        assert(en_contractions()[3] == ("i'd"@, "i would"@));
        assert(is_ascii_lower("i'd"@[0]));
        assert(two_words_at("i would"@, 1));
        assert(is_ascii_lower(en_contractions()[3].0[0]));
        assert(two_words_at(en_contractions()[3].1, 1));
        assert(entry_facts(en_contractions()[3]));
    }
    if k == 4 {
        assert(en_contractions()[4] == ("you're"@, "you are"@));
        assert(is_ascii_lower("you're"@[0]));
        assert(two_words_at("you are"@, 3));
        assert(is_ascii_lower(en_contractions()[4].0[0]));
        assert(two_words_at(en_contractions()[4].1, 3));
        assert(entry_facts(en_contractions()[4]));
    }
    if k == 5 {
        assert(en_contractions()[5] == ("you've"@, "you have"@));
        assert(is_ascii_lower("you've"@[0]));
        assert(two_words_at("you have"@, 3));
        assert(is_ascii_lower(en_contractions()[5].0[0]));
        assert(two_words_at(en_contractions()[5].1, 3));
        assert(entry_facts(en_contractions()[5]));
    }
    if k == 6 {
        assert(en_contractions()[6] == ("you'll"@, "you will"@));
        assert(is_ascii_lower("you'll"@[0]));
        assert(two_words_at("you will"@, 3));
        assert(is_ascii_lower(en_contractions()[6].0[0]));
        assert(two_words_at(en_contractions()[6].1, 3));
        assert(entry_facts(en_contractions()[6]));
    }
    if k == 7 {
        assert(en_contractions()[7] == ("you'd"@, "you would"@));
        assert(is_ascii_lower("you'd"@[0]));
        assert(two_words_at("you would"@, 3));
        assert(is_ascii_lower(en_contractions()[7].0[0]));
        assert(two_words_at(en_contractions()[7].1, 3));
        assert(entry_facts(en_contractions()[7]));
    }
    if k == 8 {
        assert(en_contractions()[8] == ("he's"@, "he is"@));
        assert(is_ascii_lower("he's"@[0]));
        assert(two_words_at("he is"@, 2));
        assert(is_ascii_lower(en_contractions()[8].0[0]));
        assert(two_words_at(en_contractions()[8].1, 2));
        assert(entry_facts(en_contractions()[8]));
    }
    if k == 9 {
        assert(en_contractions()[9] == ("she's"@, "she is"@));
        assert(is_ascii_lower("she's"@[0]));
        assert(two_words_at("she is"@, 3));
        assert(is_ascii_lower(en_contractions()[9].0[0]));
        assert(two_words_at(en_contractions()[9].1, 3));
        assert(entry_facts(en_contractions()[9]));
    }
    if k == 10 {
        assert(en_contractions()[10] == ("it's"@, "it is"@));
        assert(is_ascii_lower("it's"@[0]));
        assert(two_words_at("it is"@, 2));
        assert(is_ascii_lower(en_contractions()[10].0[0]));
        assert(two_words_at(en_contractions()[10].1, 2));
        assert(entry_facts(en_contractions()[10]));
    }
    if k == 11 {
        assert(en_contractions()[11] == ("we're"@, "we are"@));
        assert(is_ascii_lower("we're"@[0]));
        assert(two_words_at("we are"@, 2));
        assert(is_ascii_lower(en_contractions()[11].0[0]));
        assert(two_words_at(en_contractions()[11].1, 2));
        assert(entry_facts(en_contractions()[11]));
    }
    if k == 12 {
        assert(en_contractions()[12] == ("we've"@, "we have"@));
        assert(is_ascii_lower("we've"@[0]));
        assert(two_words_at("we have"@, 2));
        assert(is_ascii_lower(en_contractions()[12].0[0]));
        assert(two_words_at(en_contractions()[12].1, 2));
        assert(entry_facts(en_contractions()[12]));
    }
    if k == 13 {
        assert(en_contractions()[13] == ("we'll"@, "we will"@));
        assert(is_ascii_lower("we'll"@[0]));
        assert(two_words_at("we will"@, 2));
        assert(is_ascii_lower(en_contractions()[13].0[0]));
        assert(two_words_at(en_contractions()[13].1, 2));
        assert(entry_facts(en_contractions()[13]));
    }
    if k == 14 {
        assert(en_contractions()[14] == ("they're"@, "they are"@));
        assert(is_ascii_lower("they're"@[0]));
        assert(two_words_at("they are"@, 4));
        assert(is_ascii_lower(en_contractions()[14].0[0]));
        assert(two_words_at(en_contractions()[14].1, 4));
        assert(entry_facts(en_contractions()[14]));
    }
    if k == 15 {
        assert(en_contractions()[15] == ("they've"@, "they have"@));
        assert(is_ascii_lower("they've"@[0]));
        assert(two_words_at("they have"@, 4));
        assert(is_ascii_lower(en_contractions()[15].0[0]));
        assert(two_words_at(en_contractions()[15].1, 4));
        assert(entry_facts(en_contractions()[15]));
    }
    if k == 16 {
        assert(en_contractions()[16] == ("they'll"@, "they will"@));
        assert(is_ascii_lower("they'll"@[0]));
        assert(two_words_at("they will"@, 4));
        assert(is_ascii_lower(en_contractions()[16].0[0]));
        assert(two_words_at(en_contractions()[16].1, 4));
        assert(entry_facts(en_contractions()[16]));
    }
    if k == 17 {
        assert(en_contractions()[17] == ("don't"@, "do not"@));
        assert(is_ascii_lower("don't"@[0]));
        assert(two_words_at("do not"@, 2));
        assert(is_ascii_lower(en_contractions()[17].0[0]));
        assert(two_words_at(en_contractions()[17].1, 2));
        assert(entry_facts(en_contractions()[17]));
    }
    if k == 18 {
        assert(en_contractions()[18] == ("doesn't"@, "does not"@));
        assert(is_ascii_lower("doesn't"@[0]));
        assert(two_words_at("does not"@, 4));
        assert(is_ascii_lower(en_contractions()[18].0[0]));
        assert(two_words_at(en_contractions()[18].1, 4));
        assert(entry_facts(en_contractions()[18]));
    }
    if k == 19 {
        assert(en_contractions()[19] == ("didn't"@, "did not"@));
        assert(is_ascii_lower("didn't"@[0]));
        assert(two_words_at("did not"@, 3));
        assert(is_ascii_lower(en_contractions()[19].0[0]));
        assert(two_words_at(en_contractions()[19].1, 3));
        assert(entry_facts(en_contractions()[19]));
    }
    if k == 20 {
        assert(en_contractions()[20] == ("won't"@, "will not"@));
        assert(is_ascii_lower("won't"@[0]));
        assert(two_words_at("will not"@, 4));
        assert(is_ascii_lower(en_contractions()[20].0[0]));
        assert(two_words_at(en_contractions()[20].1, 4));
        assert(entry_facts(en_contractions()[20]));
    }
    if k == 21 {
        assert(en_contractions()[21] == ("can't"@, "cannot"@));
        assert(is_ascii_lower("can't"@[0]));
        assert(one_word("cannot"@));
        assert(is_ascii_lower(en_contractions()[21].0[0]));
        assert(entry_facts(en_contractions()[21]));
    }
    if k == 22 {
        assert(en_contractions()[22] == ("couldn't"@, "could not"@));
        assert(is_ascii_lower("couldn't"@[0]));
        assert(two_words_at("could not"@, 5));
        assert(is_ascii_lower(en_contractions()[22].0[0]));
        assert(two_words_at(en_contractions()[22].1, 5));
        assert(entry_facts(en_contractions()[22]));
    }
    if k == 23 {
        assert(en_contractions()[23] == ("shouldn't"@, "should not"@));
        assert(is_ascii_lower("shouldn't"@[0]));
        assert(two_words_at("should not"@, 6));
        assert(is_ascii_lower(en_contractions()[23].0[0]));
        assert(two_words_at(en_contractions()[23].1, 6));
        assert(entry_facts(en_contractions()[23]));
    }
    if k == 24 {
        assert(en_contractions()[24] == ("wouldn't"@, "would not"@));
        assert(is_ascii_lower("wouldn't"@[0]));
        assert(two_words_at("would not"@, 5));
        assert(is_ascii_lower(en_contractions()[24].0[0]));
        assert(two_words_at(en_contractions()[24].1, 5));
        assert(entry_facts(en_contractions()[24]));
    }
    if k == 25 {
        assert(en_contractions()[25] == ("isn't"@, "is not"@));
        assert(is_ascii_lower("isn't"@[0]));
        assert(two_words_at("is not"@, 2));
        assert(is_ascii_lower(en_contractions()[25].0[0]));
        assert(two_words_at(en_contractions()[25].1, 2));
        assert(entry_facts(en_contractions()[25]));
    }
    if k == 26 {
        assert(en_contractions()[26] == ("aren't"@, "are not"@));
        assert(is_ascii_lower("aren't"@[0]));
        assert(two_words_at("are not"@, 3));
        assert(is_ascii_lower(en_contractions()[26].0[0]));
        assert(two_words_at(en_contractions()[26].1, 3));
        assert(entry_facts(en_contractions()[26]));
    }
    if k == 27 {
        assert(en_contractions()[27] == ("wasn't"@, "was not"@));
        assert(is_ascii_lower("wasn't"@[0]));
        assert(two_words_at("was not"@, 3));
        assert(is_ascii_lower(en_contractions()[27].0[0]));
        assert(two_words_at(en_contractions()[27].1, 3));
        assert(entry_facts(en_contractions()[27]));
    }
    if k == 28 {
        assert(en_contractions()[28] == ("weren't"@, "were not"@));
        assert(is_ascii_lower("weren't"@[0]));
        assert(two_words_at("were not"@, 4));
        assert(is_ascii_lower(en_contractions()[28].0[0]));
        assert(two_words_at(en_contractions()[28].1, 4));
        assert(entry_facts(en_contractions()[28]));
    }
    if k == 29 {
        assert(en_contractions()[29] == ("that's"@, "that is"@));
        assert(is_ascii_lower("that's"@[0]));
        assert(two_words_at("that is"@, 4));
        assert(is_ascii_lower(en_contractions()[29].0[0]));
        assert(two_words_at(en_contractions()[29].1, 4));
        assert(entry_facts(en_contractions()[29]));
    }
    if k == 30 {
        assert(en_contractions()[30] == ("what's"@, "what is"@));
        assert(is_ascii_lower("what's"@[0]));
        assert(two_words_at("what is"@, 4));
        assert(is_ascii_lower(en_contractions()[30].0[0]));
        assert(two_words_at(en_contractions()[30].1, 4));
        assert(entry_facts(en_contractions()[30]));
    }
    if k == 31 {
        assert(en_contractions()[31] == ("there's"@, "there is"@));
        assert(is_ascii_lower("there's"@[0]));
        assert(two_words_at("there is"@, 5));
        assert(is_ascii_lower(en_contractions()[31].0[0]));
        assert(two_words_at(en_contractions()[31].1, 5));
        assert(entry_facts(en_contractions()[31]));
    }
    if k == 32 {
        assert(en_contractions()[32] == ("here's"@, "here is"@));
        assert(is_ascii_lower("here's"@[0]));
        assert(two_words_at("here is"@, 4));
        assert(is_ascii_lower(en_contractions()[32].0[0]));
        assert(two_words_at(en_contractions()[32].1, 4));
        assert(entry_facts(en_contractions()[32]));
    }
    if k == 33 {
        assert(en_contractions()[33] == ("let's"@, "let us"@));
        assert(is_ascii_lower("let's"@[0]));
        assert(two_words_at("let us"@, 3));
        assert(is_ascii_lower(en_contractions()[33].0[0]));
        assert(two_words_at(en_contractions()[33].1, 3));
        assert(entry_facts(en_contractions()[33]));
    }
    if k == 34 {
        assert(en_contractions()[34] == ("'cause"@, "because"@));
        assert(is_ascii_lower("'cause"@[1]));
        assert(one_word("because"@));
        assert(is_ascii_lower(en_contractions()[34].0[1]));
        assert(entry_facts(en_contractions()[34]));
    }
    if k == 35 {
        assert(en_contractions()[35] == ("'em"@, "them"@));
        assert(is_ascii_lower("'em"@[1]));
        assert(one_word("them"@));
        assert(is_ascii_lower(en_contractions()[35].0[1]));
        assert(entry_facts(en_contractions()[35]));
    }
    if k == 36 {
        assert(en_contractions()[36] == ("'til"@, "until"@));
        assert(is_ascii_lower("'til"@[1]));
        assert(one_word("until"@));
        assert(is_ascii_lower(en_contractions()[36].0[1]));
        assert(entry_facts(en_contractions()[36]));
    }
}

/// A char of `s` the trimming predicate rejects is kept by `trim_by`.
proof fn lemma_trim_by_keeps(s: Seq<char>, p: spec_fn(char) -> bool, j: int)
    requires
        0 <= j < s.len(),
        !p(s[j]),
    ensures
        trim_by(s, p).contains(s[j]),
{
    lemma_trim_start_suffix(s, p);
    let a = trim_start_by(s, p);
    let off = s.len() - a.len();
    assert(j >= off);
    assert(a[j - off] == s[j]);
    lemma_trim_end_prefix(a, p);
    let t = trim_end_by(a, p);
    assert(j - off < t.len());
    assert(t[j - off] == s[j]);
}

/// Every char `trim_by` keeps comes from `s`.
proof fn lemma_trim_by_from(s: Seq<char>, p: spec_fn(char) -> bool, k: int)
    requires
        0 <= k < trim_by(s, p).len(),
    ensures
        s.contains(trim_by(s, p)[k]),
{
    lemma_trim_start_suffix(s, p);
    let a = trim_start_by(s, p);
    let off = s.len() - a.len();
    lemma_trim_end_prefix(a, p);
    assert(trim_by(s, p)[k] == a[k]);
    assert(a[k] == s[k + off]);
}

/// No ASCII upper-case letter.
pub open spec fn no_upper(t: Seq<char>) -> bool {
    forall|k: int| 0 <= k < t.len() ==> !is_ascii_upper(#[trigger] t[k])
}

proof fn lemma_strip_from(x: Seq<char>, k: int)
    requires
        0 <= k < strip_non_alpha_spec(x).len(),
    ensures
        x.contains(strip_non_alpha_spec(x)[k]),
{
    let f = x.filter(alpha_or_apostrophe());
    lemma_trim_by_from(f, apostrophe(), k);
    x.lemma_filter_contains_rev(alpha_or_apostrophe(), strip_non_alpha_spec(x)[k]);
}

proof fn lemma_split_ascii_word(a: Seq<char>)
    requires
        ascii_word(a),
    ensures
        split_ws(a) == seq![a],
    decreases a.len(),
{
    let c = a.last();
    assert(is_ascii_lower(a[a.len() - 1]));
    if a.len() == 1 {
        assert(split_ws(a.drop_last()) =~= Seq::<Seq<char>>::empty());
        assert(seq![c] =~= a);
    } else {
        let d = a.drop_last();
        assert(ascii_word(d)) by {
            assert forall|k: int| 0 <= k < d.len() implies is_ascii_lower(#[trigger] d[k]) by {
                assert(d[k] == a[k]);
            }
        }
        lemma_split_ascii_word(d);
        assert(is_ascii_lower(a[a.len() - 2]));
        assert(d.push(c) =~= a);
    }
}

proof fn lemma_split_one_word(e: Seq<char>)
    requires
        one_word(e),
    ensures
        ascii_word(e) ==> split_ws(e) == seq![e],
        !ascii_word(e) ==> split_ws(e) == seq![e.drop_last()] && ascii_word(e.drop_last()),
{
    if ascii_word(e) {
        lemma_split_ascii_word(e);
    } else {
        lemma_split_ascii_word(e.drop_last());
    }
}

proof fn lemma_split_two_words(e: Seq<char>, i: int, n: int)
    requires
        two_words_at(e, i),
        i + 2 <= n <= e.len(),
    ensures
        split_ws(e.take(n)) == seq![e.take(i), e.subrange(i + 1, n)],
    decreases n,
{
    let t = e.take(n);
    assert(t.drop_last() =~= e.take(n - 1));
    assert(!is_whitespace(e[n - 1]));
    if n == i + 2 {
        let u = e.take(i + 1);
        assert(u.drop_last() =~= e.take(i));
        lemma_split_ascii_word(e.take(i));
        assert(split_ws(u) == seq![e.take(i)]);
        assert(seq![e[n - 1]] =~= e.subrange(i + 1, n));
        assert(seq![e.take(i)].push(seq![e[n - 1]]) =~= seq![e.take(i), e.subrange(i + 1, n)]);
    } else {
        lemma_split_two_words(e, i, n - 1);
        assert(!is_whitespace(e[n - 2]));
        assert(e.subrange(i + 1, n - 1).push(e[n - 1]) =~= e.subrange(i + 1, n));
        assert(seq![e.take(i), e.subrange(i + 1, n - 1)].update(1, e.subrange(i + 1, n)) =~= seq![
            e.take(i),
            e.subrange(i + 1, n),
        ]);
    }
}

proof fn lemma_strip_ascii_word(a: Seq<char>)
    requires
        ascii_word(a),
    ensures
        strip_non_alpha_spec(a) == a,
{
    assert(a.filter(alpha_or_apostrophe()) == a) by {
        lemma_filter_keeps_all(a);
    }
    assert(is_ascii_lower(a[0]));
    assert(is_ascii_lower(a[a.len() - 1]));
    assert(trim_start_by(a, apostrophe()) == a);
    assert(trim_end_by(a, apostrophe()) == a);
}

proof fn lemma_filter_keeps_all(a: Seq<char>)
    requires
        forall|k: int| 0 <= k < a.len() ==> is_ascii_lower(#[trigger] a[k]),
    ensures
        a.filter(alpha_or_apostrophe()) == a,
    decreases a.len(),
{
    if a.len() > 0 {
        let d = a.drop_last();
        assert forall|k: int| 0 <= k < d.len() implies is_ascii_lower(#[trigger] d[k]) by {
            assert(d[k] == a[k]);
        }
        lemma_filter_keeps_all(d);
        d.lemma_filter_push(a.last(), alpha_or_apostrophe());
        assert(is_ascii_lower(a[a.len() - 1]));
        assert(d.push(a.last()) =~= a);
    } else {
        assert(a.filter(alpha_or_apostrophe()) =~= a) by {
            reveal(Seq::filter);
        }
    }
}

/// What an expansion of a table entry gives: one or two tokens, the first its
/// first word, none with an ASCII upper-case letter; one token for a
/// one-word expansion.
proof fn lemma_expansion_shape(e: Seq<char>)
    requires
        one_word(e) || exists|i: int| two_words_at(e, i),
    ensures
        1 <= expansion_tokens(e).len() <= 2,
        one_word(e) ==> expansion_tokens(e).len() == 1,
        ascii_word(expansion_tokens(e)[0]),
        forall|k: int| 0 <= k < expansion_tokens(e).len() ==> no_upper(#[trigger] expansion_tokens(e)[k]),
{
    let st = stripper();
    let ne = non_empty();
    if one_word(e) {
        lemma_split_one_word(e);
        let a = if ascii_word(e) { e } else { e.drop_last() };
        assert(split_ws(e) == seq![a]);
        lemma_strip_ascii_word(a);
        assert(seq![a].map_values(st) =~= seq![a]);
        Seq::<Seq<char>>::empty().lemma_filter_push(a, ne);
        assert(Seq::<Seq<char>>::empty().filter(ne) =~= Seq::<Seq<char>>::empty()) by {
            reveal(Seq::filter);
        }
        assert(Seq::<Seq<char>>::empty().push(a) =~= seq![a]);
        assert(expansion_tokens(e) == seq![a]);
        assert(no_upper(a));
    } else {
        let i = choose|i: int| two_words_at(e, i);
        lemma_split_two_words(e, i, e.len() as int);
        assert(e.take(e.len() as int) =~= e);
        let a = e.take(i);
        let b = e.subrange(i + 1, e.len() as int);
        lemma_strip_ascii_word(a);
        let sb = strip_non_alpha_spec(b);
        assert(seq![a, b].map_values(st) =~= seq![a].push(sb));
        Seq::<Seq<char>>::empty().lemma_filter_push(a, ne);
        assert(Seq::<Seq<char>>::empty().filter(ne) =~= Seq::<Seq<char>>::empty()) by {
            reveal(Seq::filter);
        }
        assert(Seq::<Seq<char>>::empty().push(a) =~= seq![a]);
        seq![a].lemma_filter_push(sb, ne);
        let r = expansion_tokens(e);
        assert(r[0] == a);
        assert(no_upper(a));
        assert(no_upper(sb)) by {
            assert forall|k: int| 0 <= k < sb.len() implies !is_ascii_upper(#[trigger] sb[k]) by {
                lemma_strip_from(b, k);
                let j = choose|j: int| 0 <= j < b.len() && b[j] == sb[k];
                assert(b[j] == e[i + 1 + j]);
            }
        }
        assert forall|k: int| 0 <= k < r.len() implies no_upper(#[trigger] r[k]) by {
            if k == 1 {
                assert(r[1] == sb);
            }
        }
    }
}

proof fn lemma_find_contraction_entry(table: Seq<(Seq<char>, Seq<char>)>, w: Seq<char>, prefix: bool)
    ensures
        find_contraction(table, w, prefix) matches Some(x) ==> exists|k: int|
            0 <= k < table.len() && #[trigger] table[k] == x && (w == x.0 || (prefix && starts_with(w, x.0))),
    decreases table.len(),
{
    if table.len() > 0 {
        lemma_find_contraction_entry(table.drop_first(), w, prefix);
        if find_contraction(table, w, prefix) is Some && !(w == table[0].0 || (prefix && starts_with(
            w,
            table[0].0,
        ))) {
            let x = find_contraction(table, w, prefix)->0;
            let k = choose|k: int|
                0 <= k < table.drop_first().len() && #[trigger] table.drop_first()[k] == x && (w == x.0 || (
                prefix && starts_with(w, x.0)));
            assert(table[k + 1] == x);
        }
    }
}

proof fn lemma_all_p_trims_away(s: Seq<char>, p: spec_fn(char) -> bool)
    requires
        forall|k: int| 0 <= k < s.len() ==> p(#[trigger] s[k]),
    ensures
        trim_by(s, p).len() == 0,
{
    lemma_trim_start_suffix(s, p);
    let a = trim_start_by(s, p);
    if a.len() > 0 {
        assert(a[0] == s[s.len() - a.len()]);
    }
    assert(trim_end_by(a, p) == a);
}

/// A contraction never matches a word without an ASCII letter.
proof fn lemma_no_letter_no_match(
    table: Seq<(Seq<char>, Seq<char>)>,
    w: Seq<char>,
    prefix: bool,
)
    requires
        forall|k: int| 0 <= k < table.len() ==> entry_facts(#[trigger] table[k]),
        forall|j: int| 0 <= j < w.len() ==> !is_ascii_lower(#[trigger] w[j]),
    ensures
        find_contraction(table, w, prefix) is None,
{
    lemma_find_contraction_entry(table, w, prefix);
    if find_contraction(table, w, prefix) is Some {
        let x = find_contraction(table, w, prefix)->0;
        let k = choose|k: int|
            0 <= k < table.len() && #[trigger] table[k] == x && (w == x.0 || (prefix && starts_with(w, x.0)));
        assert(entry_facts(table[k]));
        let i = choose|i: int| 0 <= i < x.0.len() && is_ascii_lower(#[trigger] x.0[i]);
        if w == x.0 {
            assert(w[i] == x.0[i]);
        } else {
            assert(w.take(x.0.len() as int)[i] == w[i]);
        }
    }
}

/// What normalising an ASCII word yields, in terms of the word itself.
proof fn lemma_ascii_lower_facts(word: Seq<char>)
    requires
        all_ascii(word),
    ensures
        str_lowercase(word) == word.map_values(|c: char| ascii_lower(c)),
        forall|j: int| 0 <= j < word.len() ==> {
            let c = #[trigger] str_lowercase(word)[j];
            &&& is_ascii(c)
            &&& !is_ascii_upper(c)
            &&& is_ascii_lower(c) == is_alphabetic(word[j])
        },
{
    assert forall|j: int| 0 <= j < word.len() implies {
        let c = #[trigger] str_lowercase(word)[j];
        &&& is_ascii(c)
        &&& !is_ascii_upper(c)
        &&& is_ascii_lower(c) == is_alphabetic(word[j])
    } by {
        assert(is_ascii(word[j]));
    }
}

/// The shape of a normalised word. Outside the contractions "c'è"/"c'e'"
/// it has at most two tokens. For an ASCII word it is empty exactly when
/// the word has no letter, and no token has an upper-case letter.
pub proof fn law_normalized_word_shape(word: Seq<char>)
    ensures
        ({
            let lower = trim(str_lowercase(word));
            !starts_with(lower, "c'è"@) && !starts_with(lower, "c'e'"@) ==> normalize_word_spec(word).len()
                <= 2
        }),
        all_ascii(word) ==> (normalize_word_spec(word).len() == 0 <==> forall|j: int|
            0 <= j < word.len() ==> !is_alphabetic(#[trigger] word[j])),
        all_ascii(word) ==> forall|i: int|
            0 <= i < normalize_word_spec(word).len() ==> no_upper(#[trigger] normalize_word_spec(word)[i]),
{
    let low = str_lowercase(word);
    let lower = trim(low);
    let r = normalize_word_spec(word);
    assert forall|k: int| 0 <= k < it_contractions().len() implies entry_facts(#[trigger] it_contractions()[k]) by {
        lemma_it_entry_facts(k);
    }
    assert forall|k: int| 0 <= k < en_contractions().len() implies entry_facts(#[trigger] en_contractions()[k]) by {
        lemma_en_entry_facts(k);
    }
    lemma_find_contraction_entry(it_contractions(), lower, true);
    lemma_find_contraction_entry(en_contractions(), lower, false);
    // Length.
    match find_contraction(it_contractions(), lower, true) {
        Some((key, e)) => {
            let k = choose|k: int|
                0 <= k < it_contractions().len() && #[trigger] it_contractions()[k] == (key, e) && (lower
                    == key || (true && starts_with(lower, key)));
            lemma_it_entry_facts(k);
            lemma_expansion_shape(e);
            if !starts_with(lower, "c'è"@) && !starts_with(lower, "c'e'"@) {
                if key == "c'è"@ || key == "c'e'"@ {
                    if lower == key {
                        assert(lower.take(key.len() as int) =~= lower);
                    }
                }
            }
        },
        None => match find_contraction(en_contractions(), lower, false) {
            Some((key, e)) => {
                let k = choose|k: int|
                    0 <= k < en_contractions().len() && #[trigger] en_contractions()[k] == (key, e) && (lower
                        == key || (false && starts_with(lower, key)));
                lemma_en_entry_facts(k);
                lemma_expansion_shape(e);
            },
            None => {},
        },
    }
    if all_ascii(word) {
        lemma_ascii_lower_facts(word);
        // Chars of `lower` are lowered chars of the word.
        assert forall|q: int| 0 <= q < lower.len() implies is_ascii(#[trigger] lower[q]) && !is_ascii_upper(
            lower[q],
        ) by {
            lemma_trim_by_from(low, crate::text::ws(), q);
        }
        // Tokens carry no upper-case letter.
        assert forall|i: int| 0 <= i < r.len() implies no_upper(#[trigger] r[i]) by {
            match find_contraction(it_contractions(), lower, true) {
                Some((key, e)) => {
                    let k = choose|k: int|
                        0 <= k < it_contractions().len() && #[trigger] it_contractions()[k] == (key, e) && (
                        lower == key || (true && starts_with(lower, key)));
                    lemma_it_entry_facts(k);
                    lemma_expansion_shape(e);
                    let x = expansion_tokens(e);
                    let rest = lower.skip(key.len() as int);
                    if i >= x.len() {
                        assert(r[i] == stripped_token(rest)[i - x.len()]);
                        assert forall|q: int| 0 <= q < r[i].len() implies !is_ascii_upper(#[trigger] r[i][q]) by {
                            lemma_strip_from(rest, q);
                            let j = choose|j: int| 0 <= j < rest.len() && rest[j] == r[i][q];
                            assert(rest[j] == lower[j + key.len()]);
                        }
                    } else {
                        assert(r[i] == x[i]);
                    }
                },
                None => match find_contraction(en_contractions(), lower, false) {
                    Some((key, e)) => {
                        let k = choose|k: int|
                            0 <= k < en_contractions().len() && #[trigger] en_contractions()[k] == (key, e)
                                && (lower == key || (false && starts_with(lower, key)));
                        lemma_en_entry_facts(k);
                        lemma_expansion_shape(e);
                    },
                    None => {
                        assert(r[i] == strip_non_alpha_spec(lower));
                        assert forall|q: int| 0 <= q < r[i].len() implies !is_ascii_upper(#[trigger] r[i][q]) by {
                            lemma_strip_from(lower, q);
                        }
                    },
                },
            }
        }
        // Empty exactly when the word has no letter.
        if forall|j: int| 0 <= j < word.len() ==> !is_alphabetic(#[trigger] word[j]) {
            assert forall|q: int| 0 <= q < lower.len() implies !is_ascii_lower(#[trigger] lower[q]) by {
                lemma_trim_by_from(low, crate::text::ws(), q);
                let j = choose|j: int| 0 <= j < low.len() && low[j] == lower[q];
            }
            lemma_no_letter_no_match(it_contractions(), lower, true);
            lemma_no_letter_no_match(en_contractions(), lower, false);
            let f = lower.filter(alpha_or_apostrophe());
            assert forall|q: int| 0 <= q < f.len() implies apostrophe()(#[trigger] f[q]) by {
                lower.lemma_filter_pred(alpha_or_apostrophe(), q);
                assert(f.contains(f[q]));
                lower.lemma_filter_contains_rev(alpha_or_apostrophe(), f[q]);
            }
            lemma_all_p_trims_away(f, apostrophe());
        } else {
            let j = choose|j: int| 0 <= j < word.len() && is_alphabetic(#[trigger] word[j]);
            assert(is_ascii_lower(low[j]));
            assert(!is_whitespace(low[j]));
            lemma_trim_by_keeps(low, crate::text::ws(), j);
            let q = choose|q: int| 0 <= q < lower.len() && lower[q] == low[j];
            match find_contraction(it_contractions(), lower, true) {
                Some((key, e)) => {
                    let k = choose|k: int|
                        0 <= k < it_contractions().len() && #[trigger] it_contractions()[k] == (key, e) && (
                        lower == key || (true && starts_with(lower, key)));
                    lemma_it_entry_facts(k);
                    lemma_expansion_shape(e);
                },
                None => match find_contraction(en_contractions(), lower, false) {
                    Some((key, e)) => {
                        let k = choose|k: int|
                            0 <= k < en_contractions().len() && #[trigger] en_contractions()[k] == (key, e)
                                && (lower == key || (false && starts_with(lower, key)));
                        lemma_en_entry_facts(k);
                        lemma_expansion_shape(e);
                    },
                    None => {
                        lower.lemma_filter_contains(alpha_or_apostrophe(), q);
                        let f = lower.filter(alpha_or_apostrophe());
                        let m = choose|m: int| 0 <= m < f.len() && f[m] == lower[q];
                        lemma_trim_by_keeps(f, apostrophe(), m);
                    },
                },
            }
        }
    }
}

} // verus!
