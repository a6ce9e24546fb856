//! CTC target sequence of a lyrics text: per-char vocabulary ids, words
//! separated by the word-delimiter id.
use vstd::prelude::*;

use crate::text::{
    char_is_alphabetic, char_is_alphanumeric, char_lowercase, char_to_lowercase, chars_of,
    is_alphabetic, is_alphanumeric, split_whitespace_chars, split_ws, string_from_chars,
};
use crate::vocab::{token_id, Vocab};

verus! {

/// Output of `lyrics_to_target_ids`. Each entry corresponds to one
/// whitespace-separated word in the original lyrics.
#[derive(Debug)]
pub struct WordTokens {
    /// Original surface form (case + punctuation preserved). Used for display.
    pub word: String,
    /// `[start, end)` range into the flat CTC target id stream: the char ids
    /// of this word; delimiter ids fall outside.
    pub token_range: std::ops::Range<usize>,
}

#[derive(Debug)]
pub struct TargetSequence {
    pub ids: Vec<u32>,
    pub words: Vec<WordTokens>,
}

pub open spec fn target_char() -> spec_fn(char) -> bool {
    |c: char| is_alphabetic(c) || c == '\'' || c == '-'
}

pub open spec fn lowercaser() -> spec_fn(char) -> Seq<char> {
    |c: char| char_lowercase(c)
}

/// The chars of a word that are aligned: letters, apostrophes and hyphens,
/// lower-cased.
pub open spec fn normalised_word(raw: Seq<char>) -> Seq<char> {
    raw.filter(target_char()).map_values(lowercaser()).flatten()
}

/// The word holds at least one letter.
pub open spec fn has_letter(w: Seq<char>) -> bool {
    exists|i: int| 0 <= i < w.len() && is_alphabetic(#[trigger] w[i])
}

pub open spec fn alignable() -> spec_fn(Seq<char>) -> bool {
    |w: Seq<char>| has_letter(w)
}

/// The whitespace-separated words that hold a letter: tokens without one
/// (numbers, "&", a lone "-") are not aligned.
pub open spec fn alignable_words(lyrics: Seq<char>) -> Seq<Seq<char>> {
    split_ws(lyrics).filter(alignable())
}

/// Id of one char: its vocabulary id, or `unk` when it has none.
pub open spec fn char_id(entries: Seq<(Seq<char>, u32)>, unk: u32, c: char) -> u32 {
    match token_id(entries, seq![c]) {
        Some(id) => id,
        None => unk,
    }
}

/// Ids of one word's normalised chars.
pub open spec fn word_ids(entries: Seq<(Seq<char>, u32)>, unk: u32, w: Seq<char>) -> Seq<u32> {
    normalised_word(w).map_values(|c: char| char_id(entries, unk, c))
}

pub open spec fn word_ider(entries: Seq<(Seq<char>, u32)>, unk: u32) -> spec_fn(Seq<char>) -> Seq<u32> {
    |w: Seq<char>| word_ids(entries, unk, w)
}

/// Per-word id runs joined with one delimiter between consecutive words.
pub open spec fn join_ids(parts: Seq<Seq<u32>>, delim: u32) -> Seq<u32>
    decreases parts.len(),
{
    if parts.len() == 0 {
        seq![]
    } else if parts.len() == 1 {
        parts[0]
    } else {
        join_ids(parts.drop_last(), delim).push(delim) + parts.last()
    }
}

/// Index where word `k`'s ids start in the joined stream.
pub open spec fn word_start(parts: Seq<Seq<u32>>, k: int) -> int {
    if k == 0 {
        0
    } else {
        join_ids(parts.take(k), 0).len() + 1int
    }
}

/// Number of words of `lyrics` that `lyrics_to_target_ids` keeps.
pub fn count_alignable_words(lyrics: &str) -> (r: usize)
    ensures
        r == alignable_words(lyrics@).len(),
{
    let chars = chars_of(lyrics);
    let pieces = split_whitespace_chars(&chars);
    let ghost sp = split_ws(chars@);
    let mut count: usize = 0;
    let mut k: usize = 0;
    while k < pieces.len()
        invariant
            k <= pieces@.len() == sp.len(),
            sp == split_ws(lyrics@),
            forall|j: int| 0 <= j < pieces@.len() ==> (#[trigger] pieces@[j])@ == sp[j],
            count == sp.take(k as int).filter(alignable()).len(),
        decreases pieces@.len() - k,
    {
        proof {
            assert(sp.take(k + 1) =~= sp.take(k as int).push(sp[k as int]));
            sp.take(k as int).lemma_filter_push(sp[k as int], alignable());
        }
        if contains_letter(&pieces[k]) {
            count += 1;
        }
        k += 1;
    }
    proof {
        assert(sp.take(sp.len() as int) =~= sp);
    }
    count
}

fn contains_letter(raw: &Vec<char>) -> (r: bool)
    ensures
        r == has_letter(raw@),
{
    let mut i: usize = 0;
    while i < raw.len()
        invariant
            i <= raw@.len(),
            forall|j: int| 0 <= j < i ==> !is_alphabetic(#[trigger] raw@[j]),
        decreases raw@.len() - i,
    {
        if char_is_alphabetic(raw[i]) {
            return true;
        }
        i += 1;
    }
    false
}

fn normalise(raw: &Vec<char>) -> (r: Vec<char>)
    ensures
        r@ == normalised_word(raw@),
{
    let mut out: Vec<char> = Vec::new();
    let mut i: usize = 0;
    while i < raw.len()
        invariant
            i <= raw@.len(),
            out@ == raw@.take(i as int).filter(target_char()).map_values(lowercaser()).flatten(),
        decreases raw@.len() - i,
    {
        let c = raw[i];
        let ghost pre = raw@.take(i as int).filter(target_char());
        proof {
            assert(raw@.take(i + 1) =~= raw@.take(i as int).push(c));
            raw@.take(i as int).lemma_filter_push(c, target_char());
        }
        if char_is_alphabetic(c) || c == '\'' || c == '-' {
            let low = char_to_lowercase(c);
            let ghost mid = out@;
            let mut k: usize = 0;
            while k < low.len()
                invariant
                    k <= low@.len(),
                    out@ == mid + low@.take(k as int),
                decreases low@.len() - k,
            {
                out.push(low[k]);
                k += 1;
            }
            proof {
                assert(low@.take(low@.len() as int) =~= low@);
                assert(pre.push(c).map_values(lowercaser()) =~= pre.map_values(lowercaser()).push(
                    char_lowercase(c),
                ));
                pre.map_values(lowercaser()).lemma_flatten_push(char_lowercase(c));
            }
        }
        i += 1;
    }
    proof {
        assert(raw@.take(raw@.len() as int) =~= raw@);
    }
    out
}

/// Build the CTC target id sequence from `lyrics`. Words are separated by
/// `|` (vocab.delimiter_id). Each word's chars are mapped through `vocab`,
/// with unknown chars folded to `<unk>` (no skipping, so frame counts stay
/// aligned with display words). Lower-cases all input; skips words without
/// a letter; no delimiter before the first or after the last.
pub fn lyrics_to_target_ids(lyrics: &str, vocab: &Vocab) -> (r: TargetSequence)
    ensures
        ({
            let words = alignable_words(lyrics@);
            let parts = words.map_values(word_ider(vocab.entries(), vocab.unk_id));
            &&& r.ids@ == join_ids(parts, vocab.delimiter_id)
            &&& r.words@.len() == words.len()
            &&& forall|k: int|
                0 <= k < words.len() ==> {
                    &&& (#[trigger] r.words@[k]).word@ == words[k]
                    &&& r.words@[k].token_range.start == word_start(parts, k)
                    &&& r.words@[k].token_range.end == word_start(parts, k) + parts[k].len()
                }
        }),
{
    let chars = chars_of(lyrics);
    let pieces = split_whitespace_chars(&chars);
    let ghost sp = split_ws(chars@);
    let ghost f = word_ider(vocab.entries(), vocab.unk_id);
    let mut ids: Vec<u32> = Vec::new();
    let mut words: Vec<WordTokens> = Vec::new();
    let mut k: usize = 0;
    while k < pieces.len()
        invariant
            k <= pieces@.len() == sp.len(),
            sp == split_ws(lyrics@),
            f == word_ider(vocab.entries(), vocab.unk_id),
            forall|j: int| 0 <= j < pieces@.len() ==> (#[trigger] pieces@[j])@ == sp[j],
            ({
                let kw = sp.take(k as int).filter(alignable());
                let parts = kw.map_values(f);
                &&& ids@ == join_ids(parts, vocab.delimiter_id)
                &&& words@.len() == kw.len()
                &&& forall|j: int|
                    0 <= j < kw.len() ==> {
                        &&& (#[trigger] words@[j]).word@ == kw[j]
                        &&& words@[j].token_range.start == word_start(parts, j)
                        &&& words@[j].token_range.end == word_start(parts, j) + parts[j].len()
                    }
            }),
        decreases pieces@.len() - k,
    {
        let norm = normalise(&pieces[k]);
        let ghost kw = sp.take(k as int).filter(alignable());
        proof {
            assert(sp.take(k + 1) =~= sp.take(k as int).push(sp[k as int]));
            sp.take(k as int).lemma_filter_push(sp[k as int], alignable());
        }
        if contains_letter(&pieces[k]) {
            let ghost parts = kw.map_values(f);
            let ghost w = sp[k as int];
            let ghost parts2 = kw.push(w).map_values(f);
            proof {
                assert(parts2 =~= parts.push(word_ids(vocab.entries(), vocab.unk_id, w)));
                assert(parts2.take(kw.len() as int) =~= parts);
                assert forall|j: int| 0 <= j < kw.len() implies word_start(parts2, j) == word_start(parts, j) by {
                    if j > 0 {
                        assert(parts2.take(j) =~= parts.take(j));
                    }
                }
            }
            if words.len() > 0 {
                ids.push(vocab.delimiter_id);
            }
            let start = ids.len();
            let ghost before = ids@;
            let mut i: usize = 0;
            while i < norm.len()
                invariant
                    i <= norm@.len(),
                    ids@ == before + norm@.take(i as int).map_values(
                        |c: char| char_id(vocab.entries(), vocab.unk_id, c),
                    ),
                decreases norm@.len() - i,
            {
                let id = vocab.id_for_char(norm[i]);
                proof {
                    assert(norm@.take(i + 1) =~= norm@.take(i as int).push(norm@[i as int]));
                    assert(before + norm@.take(i + 1).map_values(
                        |c: char| char_id(vocab.entries(), vocab.unk_id, c),
                    ) =~= (before + norm@.take(i as int).map_values(
                        |c: char| char_id(vocab.entries(), vocab.unk_id, c),
                    )).push(id));
                }
                ids.push(id);
                i += 1;
            }
            let end = ids.len();
            proof {
                assert(norm@.take(norm@.len() as int) =~= norm@);
                let wi = word_ids(vocab.entries(), vocab.unk_id, w);
                assert(f(w) == wi);
                if kw.len() == 0 {
                    assert(parts2.len() == 1);
                    assert(ids@ =~= join_ids(parts2, vocab.delimiter_id));
                } else {
                    assert(parts2.drop_last() =~= parts);
                    assert(ids@ =~= join_ids(parts2, vocab.delimiter_id));
                    assert(parts2.take(kw.len() as int) =~= parts);
                    lemma_join_len_zero_delim(parts, vocab.delimiter_id);
                }
                assert(start == word_start(parts2, kw.len() as int));
            }
            let word = WordTokens { word: string_from_chars(&pieces[k]), token_range: start..end };
            words.push(word);
        }
        k += 1;
    }
    proof {
        assert(sp.take(sp.len() as int) =~= sp);
    }
    TargetSequence { ids, words }
}

/// The length of a join does not depend on the delimiter's value.
proof fn lemma_join_len_zero_delim(parts: Seq<Seq<u32>>, delim: u32)
    ensures
        join_ids(parts, delim).len() == join_ids(parts, 0).len(),
    decreases parts.len(),
{
    if parts.len() > 1 {
        lemma_join_len_zero_delim(parts.drop_last(), delim);
    }
}

/// The join of the first `k` parts is a prefix of the whole join, followed
/// by a delimiter when more parts come.
proof fn lemma_join_prefix(parts: Seq<Seq<u32>>, delim: u32, k: int)
    requires
        0 < k <= parts.len(),
    ensures
        join_ids(parts, delim).len() >= join_ids(parts.take(k), delim).len(),
        forall|i: int|
            0 <= i < join_ids(parts.take(k), delim).len() ==> #[trigger] join_ids(parts, delim)[i]
                == join_ids(parts.take(k), delim)[i],
        k < parts.len() ==> join_ids(parts, delim).len() > join_ids(parts.take(k), delim).len()
            && join_ids(parts, delim)[join_ids(parts.take(k), delim).len() as int] == delim,
    decreases parts.len(),
{
    let n = parts.len() as int;
    if k == n {
        assert(parts.take(k) =~= parts);
    } else {
        let d = parts.drop_last();
        lemma_join_prefix(d, delim, k);
        assert(d.take(k) =~= parts.take(k));
        let jd = join_ids(d, delim);
        assert(join_ids(parts, delim) == jd.push(delim) + parts.last());
        if k == n - 1 {
            assert(d.take(k) =~= d);
        }
    }
}

/// Where word `k`'s ids start: right after the join of the words before it
/// and one delimiter.
proof fn lemma_word_start(parts: Seq<Seq<u32>>, delim: u32, k: int)
    requires
        0 < k < parts.len(),
    ensures
        word_start(parts, k) == join_ids(parts.take(k), delim).len() + 1,
        join_ids(parts.take(k + 1), delim) == join_ids(parts.take(k), delim).push(delim) + parts[k],
{
    lemma_join_len_zero_delim(parts.take(k), delim);
    let t = parts.take(k + 1);
    assert(t.drop_last() =~= parts.take(k));
    assert(t.last() == parts[k]);
}

proof fn lemma_range_id(parts: Seq<Seq<u32>>, delim: u32, k: int, i: int)
    requires
        0 <= k < parts.len(),
        0 <= i < parts[k].len(),
    ensures
        word_start(parts, k) + i < join_ids(parts, delim).len(),
        join_ids(parts, delim)[word_start(parts, k) + i] == parts[k][i],
{
    lemma_join_prefix(parts, delim, k + 1);
    let jk1 = join_ids(parts.take(k + 1), delim);
    if k == 0 {
        assert(parts.take(1) =~= seq![parts[0]]);
    } else {
        lemma_word_start(parts, delim, k);
    }
    assert(jk1[word_start(parts, k) + i] == parts[k][i]);
}

proof fn lemma_range_gap(parts: Seq<Seq<u32>>, delim: u32, k: int)
    requires
        0 <= k < parts.len() - 1,
    ensures
        word_start(parts, k + 1) == word_start(parts, k) + parts[k].len() + 1,
        word_start(parts, k) + parts[k].len() < join_ids(parts, delim).len(),
        join_ids(parts, delim)[word_start(parts, k) + parts[k].len()] == delim,
{
    lemma_join_prefix(parts, delim, k + 1);
    lemma_word_start(parts, delim, k + 1);
    if k == 0 {
        assert(parts.take(1) =~= seq![parts[0]]);
    } else {
        lemma_word_start(parts, delim, k);
    }
}

/// Position `i` of word `k`'s range in the joined stream holds the word's
/// `i`-th id.
pub open spec fn range_holds(parts: Seq<Seq<u32>>, delim: u32, k: int, i: int) -> bool {
    &&& word_start(parts, k) + i < join_ids(parts, delim).len()
    &&& join_ids(parts, delim)[word_start(parts, k) + i] == parts[k][i]
}

/// Word `k`'s range is followed by one delimiter, then word `k + 1`'s range.
pub open spec fn gap_holds(parts: Seq<Seq<u32>>, delim: u32, k: int) -> bool {
    &&& word_start(parts, k + 1) == word_start(parts, k) + parts[k].len() + 1
    &&& word_start(parts, k) + parts[k].len() < join_ids(parts, delim).len()
    &&& join_ids(parts, delim)[word_start(parts, k) + parts[k].len()] == delim
}

/// In the target stream each word's range holds exactly its char ids, and
/// consecutive words are separated by exactly one delimiter id: delimiters
/// fall outside every range.
pub proof fn law_target_word_ranges(parts: Seq<Seq<u32>>, delim: u32)
    ensures
        forall|k: int, i: int|
            0 <= k < parts.len() && 0 <= i < parts[k].len() ==> #[trigger] range_holds(parts, delim, k, i),
        forall|k: int| 0 <= k < parts.len() - 1 ==> #[trigger] gap_holds(parts, delim, k),
{
    assert forall|k: int, i: int|
        0 <= k < parts.len() && 0 <= i < parts[k].len() implies #[trigger] range_holds(parts, delim, k, i) by {
        lemma_range_id(parts, delim, k, i);
    }
    assert forall|k: int| 0 <= k < parts.len() - 1 implies #[trigger] gap_holds(parts, delim, k) by {
        lemma_range_gap(parts, delim, k);
    }
}

pub open spec fn surface_char(c: char) -> bool {
    is_alphanumeric(c) || c == '\'' || c == '-'
}

/// The form of an aligned word used for matching: its letters, digits,
/// apostrophes and hyphens, lower-cased.
pub open spec fn normalized_surface_spec(word: Seq<char>) -> Seq<char> {
    word.filter(|c: char| surface_char(c)).map_values(lowercaser()).flatten()
}

pub fn normalized_surface(word: &str) -> (r: String)
    ensures
        r@ == normalized_surface_spec(word@),
{
    let raw = chars_of(word);
    let mut out: Vec<char> = Vec::new();
    let mut i: usize = 0;
    while i < raw.len()
        invariant
            i <= raw@.len(),
            raw@ == word@,
            out@ == raw@.take(i as int).filter(|c: char| surface_char(c)).map_values(lowercaser()).flatten(),
        decreases raw@.len() - i,
    {
        let c = raw[i];
        let ghost pre = raw@.take(i as int).filter(|c: char| surface_char(c));
        proof {
            assert(raw@.take(i + 1) =~= raw@.take(i as int).push(c));
            raw@.take(i as int).lemma_filter_push(c, |c: char| surface_char(c));
        }
        if char_is_alphanumeric(c) || c == '\'' || c == '-' {
            let low = char_to_lowercase(c);
            let ghost mid = out@;
            let mut k: usize = 0;
            while k < low.len()
                invariant
                    k <= low@.len(),
                    out@ == mid + low@.take(k as int),
                decreases low@.len() - k,
            {
                out.push(low[k]);
                k += 1;
            }
            proof {
                assert(low@.take(low@.len() as int) =~= low@);
                assert(pre.push(c).map_values(lowercaser()) =~= pre.map_values(lowercaser()).push(
                    char_lowercase(c),
                ));
                pre.map_values(lowercaser()).lemma_flatten_push(char_lowercase(c));
            }
        }
        i += 1;
    }
    proof {
        assert(raw@.take(raw@.len() as int) =~= raw@);
    }
    string_from_chars(&out)
}

} // verus!
