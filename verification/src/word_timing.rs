//! Engine-independent word timing: lyric lines to align, per-line grouping of
//! timed words, words.json entries and LRC generation.
use vstd::prelude::*;

use crate::lrc::{
    decimal, digit_char, digit_value, first_timestamp, format_lrc_timestamp, is_digit, line_parser,
    lrc_timestamp, lrc_views, pad2, parse_lrc, parse_lrc_line, parse_lrc_spec, remove_word_stamps,
    timestamp_at, ts_key, two_digits, LrcLine,
};
use crate::sort::{lemma_sort_by_sorted_id, sorted_by};
use crate::text::{
    chars_of, ends_with, ends_with_chars, is_whitespace, lemma_split_on_len, lines, lines_chars,
    split_on, starts_with, starts_with_chars, string_from_chars, strip_cr, trim, trim_by, trim_chars,
    trim_end_by, trim_start_by, ws,
};

verus! {

/// A lyric line to be timed. `ts_ms` is the LRC line timestamp, `None` for
/// plain (unsynced) lyrics.
#[derive(Debug, Clone, PartialEq, Eq)]
pub struct LyricLine {
    pub text: String,
    pub ts_ms: Option<u64>,
}

/// Lyrics prepared for alignment.
#[derive(Debug, Clone)]
pub struct LyricsInput {
    pub lines: Vec<LyricLine>,
    /// True when every line carries an LRC timestamp.
    pub synced: bool,
}

pub open spec fn line_view(l: LyricLine) -> (Seq<char>, Option<u64>) {
    (l.text@, l.ts_ms)
}

pub open spec fn line_views(v: Seq<LyricLine>) -> Seq<(Seq<char>, Option<u64>)> {
    v.map_values(|l: LyricLine| line_view(l))
}

/// `parts` joined with `sep` between consecutive parts.
pub open spec fn join(parts: Seq<Seq<char>>, sep: Seq<char>) -> Seq<char>
    decreases parts.len(),
{
    if parts.len() == 0 {
        seq![]
    } else if parts.len() == 1 {
        parts[0]
    } else {
        join(parts.drop_last(), sep) + sep + parts.last()
    }
}

impl LyricsInput {
    /// All line texts joined with spaces (the text given to the aligner).
    pub fn joined_text(&self) -> (r: String)
        ensures
            r@ == join(line_views(self.lines@).map_values(|l: (Seq<char>, Option<u64>)| l.0), " "@),
    {
        let ghost texts = line_views(self.lines@).map_values(|l: (Seq<char>, Option<u64>)| l.0);
        let mut out: Vec<char> = Vec::new();
        let mut i: usize = 0;
        while i < self.lines.len()
            invariant
                i <= self.lines@.len() == texts.len(),
                texts == line_views(self.lines@).map_values(|l: (Seq<char>, Option<u64>)| l.0),
                out@ == join(texts.take(i as int), " "@),
            decreases self.lines@.len() - i,
        {
            let t = chars_of(self.lines[i].text.as_str());
            let ghost before = out@;
            if i > 0 {
                out.push(' ');
            }
            let mut k: usize = 0;
            while k < t.len()
                invariant
                    k <= t@.len(),
                    out@ == (if i > 0 { before.push(' ') } else { before }) + t@.take(k as int),
                decreases t@.len() - k,
            {
                out.push(t[k]);
                k += 1;
            }
            proof {
                reveal_strlit(" ");
                assert(t@.take(t@.len() as int) =~= t@);
                assert(texts[i as int] == t@);
                let pre = texts.take(i as int);
                assert(texts.take(i + 1).drop_last() =~= pre);
                assert(texts.take(i + 1).last() == t@);
                if i > 0 {
                    assert(before.push(' ') =~= before + " "@);
                    assert(out@ =~= join(pre, " "@) + " "@ + t@);
                } else {
                    assert(pre.len() == 0);
                    assert(out@ =~= t@);
                }
            }
            i += 1;
        }
        proof {
            assert(texts.take(texts.len() as int) =~= texts);
        }
        string_from_chars(&out)
    }
}

/// A section marker such as `[Chorus]`.
pub open spec fn is_section_marker_spec(l: Seq<char>) -> bool {
    starts_with(l, "["@) && ends_with(l, "]"@)
}

fn is_section_marker(line: &Vec<char>) -> (r: bool)
    ensures
        r == is_section_marker_spec(line@),
{
    let open = chars_of("[");
    let close = chars_of("]");
    starts_with_chars(line, &open) && ends_with_chars(line, &close)
}

pub open spec fn trimmer() -> spec_fn(Seq<char>) -> Seq<char> {
    |l: Seq<char>| trim(l)
}

pub open spec fn plain_line_kept() -> spec_fn(Seq<char>) -> bool {
    |l: Seq<char>| l.len() > 0 && !is_section_marker_spec(l)
}

/// Lines of plain (unsynced) lyrics: trimmed, empty lines and section
/// markers dropped.
pub open spec fn plain_lines(text: Seq<char>) -> Seq<Seq<char>> {
    lines(text).map_values(trimmer()).filter(plain_line_kept())
}

/// `parse_lyrics`: synced lines when the text has any timed LRC line (in
/// timestamp order), else the plain lines; `None` when neither gives a line.
pub open spec fn parse_lyrics_spec(text: Seq<char>) -> Option<(Seq<(Seq<char>, Option<u64>)>, bool)> {
    let synced = parse_lrc_spec(text);
    if synced.len() > 0 {
        Some((synced.map_values(|e: (u64, Seq<char>)| (e.1, Some(e.0))), true))
    } else {
        let plain = plain_lines(text);
        if plain.len() == 0 {
            None
        } else {
            Some((plain.map_values(|t: Seq<char>| (t, None::<u64>)), false))
        }
    }
}

/// Parse fetched lyrics. Synced LRC keeps its line timestamps; plain lyrics
/// become one line per non-empty text line, dropping section markers such as
/// "[Chorus]". Returns `None` when there is nothing to align.
pub fn parse_lyrics(text: &str) -> (r: Option<LyricsInput>)
    ensures
        match r {
            Some(input) => parse_lyrics_spec(text@) == Some((line_views(input.lines@), input.synced)),
            None => parse_lyrics_spec(text@) is None,
        },
{
    let synced = parse_lrc(text);
    if synced.len() > 0 {
        let mut out: Vec<LyricLine> = Vec::new();
        let mut synced = synced;
        let ghost sv = lrc_views(synced@);
        let ghost target = sv.map_values(|e: (u64, Seq<char>)| (e.1, Some(e.0)));
        let mut remaining: Vec<LrcLine> = Vec::new();
        // Move the lines out in order: reverse once, then pop.
        while synced.len() > 0
            invariant
                lrc_views(remaining@) == sv.skip(synced@.len() as int).reverse(),
                lrc_views(synced@) == sv.take(synced@.len() as int),
                synced@.len() <= sv.len(),
            decreases synced@.len(),
        {
            let ghost before = synced@;
            let l = synced.pop().unwrap();
            proof {
                let n = synced@.len() as int;
                assert(lrc_views(before)[n] == sv.take(n + 1)[n]);
                assert(before[n] == l);
                assert(lrc_views(remaining@.push(l)) =~= lrc_views(remaining@).push(sv[n as int]));
                assert(sv.skip(n as int) =~= seq![sv[n as int]] + sv.skip(n + 1));
                assert(sv.skip(n as int).reverse() =~= sv.skip(n + 1).reverse().push(sv[n as int]));
                assert(lrc_views(synced@) =~= sv.take(n as int));
            }
            remaining.push(l);
        }
        proof {
            assert(sv.skip(0) =~= sv);
        }
        while remaining.len() > 0
            invariant
                lrc_views(remaining@) == sv.skip(out@.len() as int).reverse(),
                out@.len() <= sv.len(),
                line_views(out@) == target.take(out@.len() as int),
                target == sv.map_values(|e: (u64, Seq<char>)| (e.1, Some(e.0))),
            decreases remaining@.len(),
        {
            let l = remaining.pop().unwrap();
            let ghost k = out@.len() as int;
            proof {
                assert(sv.skip(k as int).reverse().last() == sv[k as int]);
                assert(sv.skip(k as int).reverse().drop_last() =~= sv.skip(k + 1).reverse());
            }
            let line = LyricLine { text: l.text, ts_ms: Some(l.ts_ms) };
            proof {
                assert(line_views(out@.push(line)) =~= target.take(k + 1));
            }
            out.push(line);
        }
        proof {
            assert(target.take(sv.len() as int) =~= target);
        }
        return Some(LyricsInput { lines: out, synced: true });
    }
    let chars = chars_of(text);
    let ls = lines_chars(&chars);
    let ghost spec_lines = lines(chars@);
    let mut out: Vec<LyricLine> = Vec::new();
    let mut k: usize = 0;
    while k < ls.len()
        invariant
            k <= ls@.len() == spec_lines.len(),
            spec_lines == lines(text@),
            forall|j: int| 0 <= j < ls@.len() ==> (#[trigger] ls@[j])@ == spec_lines[j],
            line_views(out@) == spec_lines.take(k as int).map_values(trimmer()).filter(
                plain_line_kept(),
            ).map_values(|t: Seq<char>| (t, None::<u64>)),
        decreases ls@.len() - k,
    {
        let t = trim_chars(&ls[k]);
        let ghost pre = spec_lines.take(k as int).map_values(trimmer());
        proof {
            assert(spec_lines.take(k + 1).map_values(trimmer()) =~= pre.push(t@));
            pre.lemma_filter_push(t@, plain_line_kept());
        }
        if t.len() > 0 && !is_section_marker(&t) {
            let line = LyricLine { text: string_from_chars(&t), ts_ms: None };
            proof {
                let f = pre.filter(plain_line_kept());
                assert(f.push(t@).map_values(|t: Seq<char>| (t, None::<u64>)) =~= f.map_values(
                    |t: Seq<char>| (t, None::<u64>),
                ).push((t@, None::<u64>)));
                assert(line_views(out@.push(line)) =~= line_views(out@).push((t@, None::<u64>)));
            }
            out.push(line);
        }
        k += 1;
    }
    proof {
        assert(spec_lines.take(spec_lines.len() as int) =~= spec_lines);
    }
    if out.len() == 0 {
        None
    } else {
        Some(LyricsInput { lines: out, synced: false })
    }
}

// ───────────── grouping ─────────────

/// Consecutive groups of `counts[i]` items (fewer once `items` runs out).
pub open spec fn split_counts_spec<T>(items: Seq<T>, counts: Seq<usize>) -> Seq<Seq<T>>
    decreases counts.len(),
{
    if counts.len() == 0 {
        seq![]
    } else {
        let n = if counts[0] <= items.len() {
            counts[0] as int
        } else {
            items.len() as int
        };
        seq![items.take(n)] + split_counts_spec(items.skip(n), counts.drop_first())
    }
}

/// Split a flat, in-order word stream into per-line groups of `counts[i]` words.
pub fn split_by_counts<T>(words: Vec<T>, counts: &[usize]) -> (r: Vec<Vec<T>>)
    ensures
        r@.len() == counts@.len(),
        forall|i: int| 0 <= i < r@.len() ==> (#[trigger] r@[i])@ == split_counts_spec(words@, counts@)[i],
{
    let mut rest = words;
    let ghost orig = words@;
    let mut out: Vec<Vec<T>> = Vec::new();
    let mut i: usize = 0;
    proof {
        assert(counts@.skip(0) =~= counts@);
    }
    while i < counts.len()
        invariant
            i <= counts@.len(),
            out@.len() == i,
            split_counts_spec(orig, counts@) == Seq::new(i as nat, |j: int| out@[j]@)
                + split_counts_spec(rest@, counts@.skip(i as int)),
        decreases counts@.len() - i,
    {
        let n = counts[i];
        let ghost r0 = rest@;
        let mut group: Vec<T> = Vec::new();
        let mut k: usize = 0;
        while k < n && rest.len() > 0
            invariant
                k <= n,
                k <= r0.len(),
                group@ == r0.take(k as int),
                rest@ == r0.skip(k as int),
            decreases n - k,
        {
            let x = rest.remove(0);
            proof {
                assert(r0.take(k + 1) =~= r0.take(k as int).push(x));
                assert(rest@ =~= r0.skip(k + 1));
            }
            group.push(x);
            k += 1;
        }
        proof {
            let c = counts@.skip(i as int);
            assert(c[0] == n);
            assert(c.drop_first() =~= counts@.skip(i + 1));
            let m = if n <= r0.len() { n as int } else { r0.len() as int };
            assert(k == m);
            let old_prefix = Seq::new(i as nat, |j: int| out@[j]@);
            assert(split_counts_spec(r0, c) == seq![r0.take(m)] + split_counts_spec(r0.skip(m), c.drop_first()));
            assert(Seq::new((i + 1) as nat, |j: int| out@.push(group)[j]@) =~= old_prefix.push(group@));
            assert(old_prefix + split_counts_spec(r0, c) =~= old_prefix.push(group@) + split_counts_spec(
                rest@,
                counts@.skip(i + 1),
            ));
        }
        out.push(group);
        i += 1;
    }
    proof {
        assert(counts@.skip(i as int).len() == 0);
        let s = Seq::new(i as nat, |j: int| out@[j]@);
        assert(s + Seq::<Seq<T>>::empty() =~= s);
    }
    out
}

// ───────────── words.json entries and LRC generation ─────────────

/// One words.json entry. `score` is the aligner confidence in millionths.
#[derive(Debug, Clone, PartialEq, Eq)]
pub struct WordEntry {
    pub word: String,
    pub start_ms: u64,
    pub end_ms: u64,
    pub line: Option<usize>,
    pub score: Option<u32>,
    /// Timing interpolated from neighbouring words rather than measured.
    pub estimated: bool,
}

/// A score in millionths rounded to thousandths (half up), as words.json
/// stores it.
pub fn score_thousandths(score: u32) -> (r: u32)
    ensures
        r == (score as int + 500) / 1000,
{
    ((score as u64 + 500) / 1000) as u32
}

/// Earliest start among the entries attributed to line `l`.
pub open spec fn earliest_start(entries: Seq<WordEntry>, l: int) -> Option<u64>
    decreases entries.len(),
{
    if entries.len() == 0 {
        None
    } else {
        let prev = earliest_start(entries.drop_last(), l);
        let e = entries.last();
        if e.line == Some(l as usize) && (prev is None || e.start_ms < prev->0) {
            Some(e.start_ms)
        } else {
            prev
        }
    }
}

/// Timestamp given to line `i` of a generated LRC: its earliest word start,
/// never before the previous line's (a line without words inherits it).
pub open spec fn generated_line_ts(entries: Seq<WordEntry>, i: int) -> u64
    decreases i,
{
    let last: u64 = if i <= 0 {
        0
    } else {
        generated_line_ts(entries, i - 1)
    };
    match earliest_start(entries, i) {
        Some(s) => if s >= last {
            s
        } else {
            last
        },
        None => last,
    }
}

proof fn lemma_earliest_start(entries: Seq<WordEntry>, l: int)
    ensures
        earliest_start(entries, l) is None ==> forall|k: int|
            0 <= k < entries.len() ==> (#[trigger] entries[k]).line != Some(l as usize),
        earliest_start(entries, l) matches Some(s) ==> (exists|k: int|
            0 <= k < entries.len() && (#[trigger] entries[k]).line == Some(l as usize) && entries[k].start_ms == s)
            && forall|k: int|
            0 <= k < entries.len() && (#[trigger] entries[k]).line == Some(l as usize) ==> s <= entries[k].start_ms,
    decreases entries.len(),
{
    if entries.len() > 0 {
        let d = entries.drop_last();
        lemma_earliest_start(d, l);
        assert(entries.last() == entries[entries.len() - 1]);
        assert forall|k: int| 0 <= k < entries.len() - 1 implies #[trigger] entries[k] == d[k] by {}
        if earliest_start(d, l) is Some {
            let s0 = earliest_start(d, l)->0;
            let w = choose|k: int|
                0 <= k < d.len() && (#[trigger] d[k]).line == Some(l as usize) && d[k].start_ms == s0;
            assert(entries[w] == d[w]);
        }
    }
}

/// Each generated line is stamped with its earliest word: the stamp never
/// goes back from the previous line's, no word attributed to the line starts
/// before it unless it was held at the previous line's stamp, and it is the
/// previous line's stamp or the start of one of the line's words.
pub proof fn law_line_stamp_is_earliest_word(entries: Seq<WordEntry>, i: int)
    requires
        0 <= i <= usize::MAX,
    ensures
        ({
            let ts = generated_line_ts(entries, i);
            let prev: u64 = if i == 0 {
                0
            } else {
                generated_line_ts(entries, i - 1)
            };
            &&& prev <= ts
            &&& forall|k: int|
                0 <= k < entries.len() && (#[trigger] entries[k]).line == Some(i as usize) ==> ts
                    <= entries[k].start_ms || ts == prev
            &&& ts == prev || exists|k: int|
                0 <= k < entries.len() && (#[trigger] entries[k]).line == Some(i as usize) && entries[k].start_ms
                    == ts
        }),
{
    lemma_earliest_start(entries, i);
}

/// The LRC text for the first `n` lines.
pub open spec fn generated_lrc(texts: Seq<Seq<char>>, entries: Seq<WordEntry>, n: int) -> Seq<char>
    decreases n,
{
    if n <= 0 {
        seq![]
    } else {
        generated_lrc(texts, entries, n - 1) + lrc_timestamp(generated_line_ts(entries, n - 1) as nat)
            + texts[n - 1] + seq!['\n']
    }
}

pub open spec fn line_texts(lines: Seq<LyricLine>) -> Seq<Seq<char>> {
    lines.map_values(|l: LyricLine| l.text@)
}

pub open spec fn starts_formattable(entries: Seq<WordEntry>) -> bool {
    forall|k: int| 0 <= k < entries.len() ==> (#[trigger] entries[k]).start_ms <= u64::MAX - 5
}

proof fn lemma_earliest_bound(entries: Seq<WordEntry>, l: int)
    requires
        starts_formattable(entries),
    ensures
        earliest_start(entries, l) matches Some(s) ==> s <= u64::MAX - 5,
    decreases entries.len(),
{
    if entries.len() > 0 {
        lemma_earliest_bound(entries.drop_last(), l);
    }
}

proof fn lemma_line_ts_bound(entries: Seq<WordEntry>, i: int)
    requires
        starts_formattable(entries),
    ensures
        generated_line_ts(entries, i) <= u64::MAX - 5,
    decreases i,
{
    if i > 0 {
        lemma_line_ts_bound(entries, i - 1);
    }
    lemma_earliest_bound(entries, i);
}

/// Build a synced LRC from the timed words of plain lyrics: each line starts at
/// its first word. Lines that got no word inherit the previous line's time so
/// the line order (and thus words.json `line` indices) is preserved.
pub fn generate_lrc(lines: &[LyricLine], entries: &[WordEntry]) -> (r: String)
    requires
        starts_formattable(entries@),
    ensures
        r@ == generated_lrc(line_texts(lines@), entries@, lines@.len() as int),
{
    let n = lines.len();
    let mut first_start: Vec<Option<u64>> = Vec::new();
    let mut i: usize = 0;
    while i < n
        invariant
            i <= n == lines@.len(),
            first_start@.len() == i,
            forall|l: int| 0 <= l < i ==> #[trigger] first_start@[l] == None::<u64>,
        decreases n - i,
    {
        first_start.push(None);
        i += 1;
    }
    let mut k: usize = 0;
    proof {
        assert forall|l: int| 0 <= l < n implies #[trigger] first_start@[l] == earliest_start(
            entries@.take(0),
            l,
        ) by {}
    }
    while k < entries.len()
        invariant
            k <= entries@.len(),
            first_start@.len() == n,
            forall|l: int| 0 <= l < n ==> #[trigger] first_start@[l] == earliest_start(entries@.take(k as int), l),
        decreases entries@.len() - k,
    {
        let e = &entries[k];
        proof {
            assert(entries@.take(k + 1).drop_last() =~= entries@.take(k as int));
            assert(entries@.take(k + 1).last() == entries@[k as int]);
        }
        if let Some(l) = e.line {
            if l < first_start.len() {
                let update = match first_start[l] {
                    None => true,
                    Some(s) => e.start_ms < s,
                };
                if update {
                    first_start.set(l, Some(e.start_ms));
                }
            }
        }
        k += 1;
    }
    proof {
        assert(entries@.take(entries@.len() as int) =~= entries@);
    }
    let mut out: Vec<char> = Vec::new();
    let mut last: u64 = 0;
    let mut i: usize = 0;
    while i < n
        invariant
            i <= n == lines@.len(),
            first_start@.len() == n,
            forall|l: int| 0 <= l < n ==> #[trigger] first_start@[l] == earliest_start(entries@, l),
            starts_formattable(entries@),
            last == (if i == 0 { 0 } else { generated_line_ts(entries@, i - 1) }),
            out@ == generated_lrc(line_texts(lines@), entries@, i as int),
        decreases n - i,
    {
        let ts = match first_start[i] {
            Some(s) => if s >= last {
                s
            } else {
                last
            },
            None => last,
        };
        proof {
            lemma_line_ts_bound(entries@, i as int);
            assert(ts == generated_line_ts(entries@, i as int));
        }
        last = ts;
        let stamp = chars_of(format_lrc_timestamp(ts).as_str());
        let text = chars_of(lines[i].text.as_str());
        let ghost before = out@;
        let mut k: usize = 0;
        while k < stamp.len()
            invariant
                k <= stamp@.len(),
                out@ == before + stamp@.take(k as int),
            decreases stamp@.len() - k,
        {
            out.push(stamp[k]);
            k += 1;
        }
        let ghost mid = out@;
        let mut k: usize = 0;
        while k < text.len()
            invariant
                k <= text@.len(),
                out@ == mid + text@.take(k as int),
            decreases text@.len() - k,
        {
            out.push(text[k]);
            k += 1;
        }
        out.push('\n');
        proof {
            assert(stamp@.take(stamp@.len() as int) =~= stamp@);
            assert(text@.take(text@.len() as int) =~= text@);
            assert(line_texts(lines@)[i as int] == text@);
            assert(out@ =~= before + stamp@ + text@ + seq!['\n']);
        }
        i += 1;
    }
    string_from_chars(&out)
}

// ───────────── LRC round trip ─────────────

proof fn lemma_split_on_concat(s: Seq<char>, t: Seq<char>, sep: char)
    requires
        s.len() == 0 || s.last() == sep,
    ensures
        split_on(s + t, sep) == split_on(s, sep).drop_last() + split_on(t, sep),
    decreases t.len(),
{
    lemma_split_on_len(s, sep);
    if t.len() == 0 {
        assert(s + t =~= s);
        if s.len() > 0 {
            assert(s.drop_last() + seq![sep] =~= s);
            lemma_split_on_len(s.drop_last(), sep);
        }
        assert(split_on(s, sep).last() =~= Seq::<char>::empty());
        assert(split_on(s, sep).drop_last() + seq![Seq::<char>::empty()] =~= split_on(s, sep));
    } else {
        let t2 = t.drop_last();
        lemma_split_on_concat(s, t2, sep);
        assert((s + t).drop_last() =~= s + t2);
        assert((s + t).last() == t.last());
        lemma_split_on_len(t2, sep);
        let a = split_on(s, sep).drop_last();
        let b = split_on(t2, sep);
        if t.last() == sep {
            assert((a + b).push(seq![]) =~= a + b.push(seq![]));
        } else {
            assert((a + b).update((a + b).len() - 1, (a + b).last().push(t.last())) =~= a + b.update(
                b.len() - 1,
                b.last().push(t.last()),
            ));
        }
    }
}

proof fn lemma_split_on_no_sep(l: Seq<char>, sep: char)
    requires
        forall|k: int| 0 <= k < l.len() ==> l[k] != sep,
    ensures
        split_on(l, sep) == seq![l],
    decreases l.len(),
{
    if l.len() > 0 {
        assert(l[l.len() - 1] != sep);
        assert forall|k: int| 0 <= k < l.drop_last().len() implies l.drop_last()[k] != sep by {
            assert(l.drop_last()[k] == l[k]);
        }
        lemma_split_on_no_sep(l.drop_last(), sep);
        assert(l.drop_last().push(l.last()) =~= l);
        assert(split_on(l, sep) =~= seq![l]);
    } else {
        assert(l =~= Seq::<char>::empty());
        assert(split_on(l, sep) =~= seq![l]);
    }
}

/// A text line of a generated LRC: its timestamp then its lyric text.
pub open spec fn generated_line(texts: Seq<Seq<char>>, entries: Seq<WordEntry>, i: int) -> Seq<char> {
    lrc_timestamp(generated_line_ts(entries, i) as nat) + texts[i]
}

pub open spec fn no_newline(l: Seq<char>) -> bool {
    forall|k: int| 0 <= k < l.len() ==> #[trigger] l[k] != '\n'
}

proof fn lemma_generated_split(texts: Seq<Seq<char>>, entries: Seq<WordEntry>, n: int)
    requires
        0 <= n <= texts.len(),
        forall|i: int| 0 <= i < n ==> no_newline(#[trigger] generated_line(texts, entries, i)),
    ensures
        split_on(generated_lrc(texts, entries, n), '\n') == Seq::new(
            n as nat,
            |i: int| generated_line(texts, entries, i),
        ).push(seq![]),
        n > 0 ==> generated_lrc(texts, entries, n).last() == '\n',
    decreases n,
{
    if n == 0 {
        assert(split_on(Seq::<char>::empty(), '\n') =~= seq![Seq::<char>::empty()]);
        assert(Seq::new(0, |i: int| generated_line(texts, entries, i)).push(seq![]) =~= seq![
            Seq::<char>::empty(),
        ]);
    } else {
        lemma_generated_split(texts, entries, n - 1);
        let prev = generated_lrc(texts, entries, n - 1);
        let line = generated_line(texts, entries, n - 1);
        let tail = line + seq!['\n'];
        assert(generated_lrc(texts, entries, n) =~= prev + tail);
        lemma_split_on_concat(prev, tail, '\n');
        assert(no_newline(line));
        lemma_split_on_no_sep(line, '\n');
        assert(tail.drop_last() =~= line);
        assert(split_on(tail, '\n') =~= seq![line, Seq::<char>::empty()]);
        assert(Seq::new(n as nat, |i: int| generated_line(texts, entries, i)).push(seq![]) =~= Seq::new(
            (n - 1) as nat,
            |i: int| generated_line(texts, entries, i),
        ) + seq![line, Seq::<char>::empty()]);
        assert((prev + tail).last() == '\n');
    }
}

proof fn lemma_trim_start_len(s: Seq<char>, p: spec_fn(char) -> bool)
    ensures
        trim_start_by(s, p).len() <= s.len(),
        s.len() > 0 && p(s[0]) ==> trim_start_by(s, p).len() < s.len(),
    decreases s.len(),
{
    if s.len() > 0 && p(s[0]) {
        lemma_trim_start_len(s.drop_first(), p);
    }
}

proof fn lemma_trim_end_len(s: Seq<char>, p: spec_fn(char) -> bool)
    ensures
        trim_end_by(s, p).len() <= s.len(),
        s.len() > 0 && p(s.last()) ==> trim_end_by(s, p).len() < s.len(),
    decreases s.len(),
{
    if s.len() > 0 && p(s.last()) {
        lemma_trim_end_len(s.drop_last(), p);
    }
}

/// A trimmed non-empty text starts and ends with non-whitespace.
proof fn lemma_trimmed_ends(t: Seq<char>)
    requires
        t.len() > 0,
        trim(t) == t,
    ensures
        !is_whitespace(t[0]),
        !is_whitespace(t.last()),
{
    let p = ws();
    lemma_trim_start_len(t, p);
    lemma_trim_end_len(trim_start_by(t, p), p);
    if trim_start_by(t, p).len() == t.len() {
        assert(!p(t[0]));
        if p(t[0]) {
        }
        assert(trim_start_by(t, p) == t);
        lemma_trim_end_len(t, p);
    }
}

proof fn lemma_pad2_two_digits(n: nat)
    requires
        n < 100,
    ensures
        pad2(n).len() == 2,
        pad2(n)[0] == digit_char((n / 10) as int),
        pad2(n)[1] == digit_char((n % 10) as int),
{
    if n >= 10 {
        assert(decimal((n / 10) as nat) == seq![digit_char((n / 10) as int)]);
    }
}

proof fn lemma_digit_char(d: int)
    requires
        0 <= d < 10,
    ensures
        is_digit(digit_char(d)),
        digit_value(digit_char(d)) == d,
{
}

proof fn lemma_centis(c: int)
    requires
        0 <= c,
        c / 6000 < 100,
    ensures
        ((c / 6000) * 60 + (c / 100) % 60) * 1000 + 10 * (c % 100) == 10 * c,
{
    let q = c / 100;
    assert(c == 100 * q + c % 100) by (nonlinear_arith)
        requires q == c / 100, 0 <= c;
    assert(q == 60 * (q / 60) + q % 60) by (nonlinear_arith)
        requires 0 <= q;
    assert(q / 60 == c / 6000) by (nonlinear_arith)
        requires q == c / 100, 0 <= c;
    assert(((c / 6000) * 60 + q % 60) * 1000 + 10 * (c % 100) == 10 * c) by (nonlinear_arith)
        requires
            c == 100 * q + c % 100,
            q == 60 * (q / 60) + q % 60,
            q / 60 == c / 6000;
}

/// The line a generated LRC holds for one lyric line parses back to that
/// lyric text with the centisecond-rounded timestamp.
proof fn lemma_parse_generated_line(ms: nat, text: Seq<char>)
    requires
        ms + 5 < 6_000_000,
        text.len() > 0,
        trim(text) == text,
        remove_word_stamps(text) == text,
    ensures
        parse_lrc_line(lrc_timestamp(ms) + text) == Some((((ms + 5) / 10 * 10) as u64, text)),
{
    let c = (ms + 5) / 10;
    let mm = c / 6000;
    let ss = (c / 100) % 60;
    let cc = c % 100;
    lemma_pad2_two_digits(mm);
    lemma_pad2_two_digits(ss);
    lemma_pad2_two_digits(cc);
    let stamp = lrc_timestamp(ms);
    let line = stamp + text;
    assert(stamp.len() == 10);
    assert(line[0] == '[');
    assert(line[1] == digit_char((mm / 10) as int));
    assert(line[2] == digit_char((mm % 10) as int));
    assert(line[3] == ':');
    assert(line[4] == digit_char((ss / 10) as int));
    assert(line[5] == digit_char((ss % 10) as int));
    assert(line[6] == '.');
    assert(line[7] == digit_char((cc / 10) as int));
    assert(line[8] == digit_char((cc % 10) as int));
    assert(line[9] == ']');
    lemma_digit_char((mm / 10) as int);
    lemma_digit_char((mm % 10) as int);
    lemma_digit_char((ss / 10) as int);
    lemma_digit_char((ss % 10) as int);
    lemma_digit_char((cc / 10) as int);
    lemma_digit_char((cc % 10) as int);
    lemma_trimmed_ends(text);
    assert(line.last() == text.last());
    assert(!is_whitespace(line[0]));
    let p = ws();
    assert(trim_start_by(line, p) == line);
    assert(trim_end_by(line, p) == line);
    assert(trim(line) == line);
    assert(two_digits(line, 1) == mm);
    assert(two_digits(line, 4) == ss);
    assert(two_digits(line, 7) == cc);
    lemma_centis(c as int);
    assert(timestamp_at(line, 0) == Some(((c * 10) as u64, 10int)));
    assert(first_timestamp(line, 0) == Some(((c * 10) as u64, 10int)));
    assert(line.skip(10) =~= text);
}

/// A formatted timestamp reads back as the nearest centisecond: a multiple of
/// 10 ms within 5 ms of the time (for times under 100 minutes, the two-digit
/// minute field).
pub proof fn law_lrc_timestamp_rounding(ms: nat)
    requires
        ms + 5 < 6_000_000,
    ensures
        timestamp_at(lrc_timestamp(ms), 0) matches Some((t, end)) && end == 10 && t % 10 == 0 && ms
            < t + 5 && t <= ms + 5,
{
    let c = (ms + 5) / 10;
    let mm = c / 6000;
    let ss = (c / 100) % 60;
    let cc = c % 100;
    lemma_pad2_two_digits(mm);
    lemma_pad2_two_digits(ss);
    lemma_pad2_two_digits(cc);
    let line = lrc_timestamp(ms);
    assert(line.len() == 10);
    assert(line[1] == digit_char((mm / 10) as int));
    assert(line[2] == digit_char((mm % 10) as int));
    assert(line[4] == digit_char((ss / 10) as int));
    assert(line[5] == digit_char((ss % 10) as int));
    assert(line[7] == digit_char((cc / 10) as int));
    assert(line[8] == digit_char((cc % 10) as int));
    lemma_digit_char((mm / 10) as int);
    lemma_digit_char((mm % 10) as int);
    lemma_digit_char((ss / 10) as int);
    lemma_digit_char((ss % 10) as int);
    lemma_digit_char((cc / 10) as int);
    lemma_digit_char((cc % 10) as int);
    assert(two_digits(line, 1) == mm);
    assert(two_digits(line, 4) == ss);
    assert(two_digits(line, 7) == cc);
    lemma_centis(c as int);
    assert(timestamp_at(line, 0) == Some(((c * 10) as u64, 10int)));
    assert((c * 10) % 10 == 0) by (nonlinear_arith);
}

pub open spec fn rounded_line(entries: Seq<WordEntry>, texts: Seq<Seq<char>>, i: int) -> (u64, Seq<char>) {
    ((((generated_line_ts(entries, i) + 5) / 10) * 10) as u64, texts[i])
}

/// Lyric texts a generated LRC can carry unchanged: one trimmed, non-empty
/// line without line breaks or enhanced-LRC word stamps.
pub open spec fn lrc_safe_text(t: Seq<char>) -> bool {
    &&& t.len() > 0
    &&& trim(t) == t
    &&& remove_word_stamps(t) == t
    &&& forall|k: int| 0 <= k < t.len() ==> #[trigger] t[k] != '\n' && t[k] != '\r'
}

proof fn lemma_line_ts_monotone(entries: Seq<WordEntry>, i: int, j: int)
    requires
        0 <= i <= j,
    ensures
        generated_line_ts(entries, i) <= generated_line_ts(entries, j),
    decreases j - i,
{
    if i < j {
        lemma_line_ts_monotone(entries, i, j - 1);
    }
}

/// Parsing the LRC generated for plain lyrics gives back every line, in
/// order, with its timestamp rounded to the centisecond (for songs under 100
/// minutes, the two-digit minute field of the format).
pub proof fn law_generated_lrc_round_trip(texts: Seq<Seq<char>>, entries: Seq<WordEntry>)
    requires
        forall|i: int| 0 <= i < texts.len() ==> lrc_safe_text(#[trigger] texts[i]),
        forall|i: int| 0 <= i < texts.len() ==> #[trigger] generated_line_ts(entries, i) + 5 < 6_000_000,
    ensures
        parse_lrc_spec(generated_lrc(texts, entries, texts.len() as int)) == Seq::new(
            texts.len(),
            |i: int| rounded_line(entries, texts, i),
        ),
{
    let n = texts.len() as int;
    let gen = generated_lrc(texts, entries, n);
    assert forall|i: int| 0 <= i < n implies no_newline(#[trigger] generated_line(texts, entries, i)) by {
        assert(lrc_safe_text(texts[i]));
        let c = (generated_line_ts(entries, i) + 5) / 10;
        lemma_pad2_two_digits((c / 6000) as nat);
        lemma_pad2_two_digits(((c / 100) % 60) as nat);
        lemma_pad2_two_digits((c % 100) as nat);
        let stamp = lrc_timestamp(generated_line_ts(entries, i) as nat);
        assert forall|k: int| 0 <= k < generated_line(texts, entries, i).len() implies #[trigger] generated_line(
            texts,
            entries,
            i,
        )[k] != '\n' by {
            if k >= 10 {
                assert(generated_line(texts, entries, i)[k] == texts[i][k - 10]);
            }
        }
    }
    lemma_generated_split(texts, entries, n);
    let ls = Seq::new(n as nat, |i: int| generated_line(texts, entries, i));
    assert(lines(gen) =~= ls) by {
        let p = split_on(gen, '\n');
        assert(p.drop_last() =~= ls);
        assert forall|i: int| 0 <= i < n implies strip_cr(#[trigger] ls[i]) == ls[i] by {
            assert(lrc_safe_text(texts[i]));
            let t = texts[i];
            assert(ls[i].last() == t.last());
        }
        assert(p.drop_last().map_values(|l: Seq<char>| strip_cr(l)) =~= ls);
    }
    let expected = Seq::new(texts.len(), |i: int| rounded_line(entries, texts, i));
    assert forall|i: int| 0 <= i < n implies #[trigger] parse_lrc_line(ls[i]) == Some(expected[i]) by {
        assert(lrc_safe_text(texts[i]));
        lemma_parse_generated_line(generated_line_ts(entries, i) as nat, texts[i]);
    }
    lemma_filter_map_all_some(ls, line_parser(), expected);
    assert(sorted_by(expected, ts_key())) by {
        assert forall|i: int, j: int| 0 <= i <= j < expected.len() implies ts_key()(#[trigger] expected[i])
            <= ts_key()(#[trigger] expected[j]) by {
            lemma_line_ts_monotone(entries, i, j);
            let a = generated_line_ts(entries, i) + 5;
            let b = generated_line_ts(entries, j) + 5;
            assert((a / 10) * 10 <= (b / 10) * 10) by (nonlinear_arith)
                requires a <= b, 0 <= a;
        }
    }
    lemma_sort_by_sorted_id(expected, ts_key());
}

proof fn lemma_filter_map_all_some(
    s: Seq<Seq<char>>,
    f: spec_fn(Seq<char>) -> Option<(u64, Seq<char>)>,
    out: Seq<(u64, Seq<char>)>,
)
    requires
        out.len() == s.len(),
        forall|i: int| 0 <= i < s.len() ==> f(#[trigger] s[i]) == Some(out[i]),
    ensures
        s.filter_map(f) == out,
    decreases s.len(),
{
    if s.len() > 0 {
        lemma_filter_map_all_some(s.drop_last(), f, out.drop_last());
        assert(f(s.last()) == Some(out.last()));
        assert(out.drop_last() + seq![out.last()] =~= out);
    }
}

/// Total of the requested group sizes.
pub open spec fn count_total(counts: Seq<usize>) -> int
    decreases counts.len(),
{
    if counts.len() == 0 {
        0
    } else {
        counts[0] + count_total(counts.drop_first())
    }
}

/// The groups, put back together, are the stream's first words in order:
/// as many as the counts ask for, or all of them when they run out.
pub proof fn law_split_groups_concat<T>(items: Seq<T>, counts: Seq<usize>)
    ensures
        split_counts_spec(items, counts).flatten() == items.take(
            if count_total(counts) <= items.len() {
                count_total(counts)
            } else {
                items.len() as int
            },
        ),
    decreases counts.len(),
{
    if counts.len() == 0 {
        assert(items.take(0) =~= Seq::<T>::empty());
    } else {
        let n = if counts[0] <= items.len() {
            counts[0] as int
        } else {
            items.len() as int
        };
        let rest = items.skip(n);
        law_split_groups_concat(rest, counts.drop_first());
        let groups = split_counts_spec(items, counts);
        assert(groups.first() == items.take(n));
        assert(groups.drop_first() =~= split_counts_spec(rest, counts.drop_first()));
        assert(count_total(counts.drop_first()) >= 0) by {
            lemma_count_total_nonneg(counts.drop_first());
        }
        let m_rest = if count_total(counts.drop_first()) <= rest.len() {
            count_total(counts.drop_first())
        } else {
            rest.len() as int
        };
        assert(items.take(n) + rest.take(m_rest) =~= items.take(n + m_rest));
    }
}

/// Index `x` held to the stream's length.
pub open spec fn clamp_to(x: int, len: int) -> int {
    if x <= len {
        x
    } else {
        len
    }
}

/// Group `i` is the stream's slice between the totals of the counts before it
/// and up to it, both held to the stream's length: it has `counts[i]` words
/// while they last, fewer (or none) once they run out.
pub proof fn law_split_group_sizes<T>(items: Seq<T>, counts: Seq<usize>, i: int)
    requires
        0 <= i < counts.len(),
    ensures
        split_counts_spec(items, counts).len() == counts.len(),
        split_counts_spec(items, counts)[i] == items.subrange(
            clamp_to(count_total(counts.take(i)), items.len() as int),
            clamp_to(count_total(counts.take(i + 1)), items.len() as int),
        ),
    decreases i,
{
    lemma_split_len(items, counts);
    let n = if counts[0] <= items.len() {
        counts[0] as int
    } else {
        items.len() as int
    };
    let rest = items.skip(n);
    let tail = counts.drop_first();
    assert(counts.take(1).drop_first() =~= Seq::<usize>::empty());
    assert(count_total(counts.take(1).drop_first()) == 0);
    assert(count_total(counts.take(1)) == counts[0]);
    if i == 0 {
        assert(counts.take(0) =~= Seq::<usize>::empty());
        assert(items.take(n) =~= items.subrange(0, n));
    } else {
        law_split_group_sizes(rest, tail, i - 1);
        assert(counts.take(i).drop_first() =~= tail.take(i - 1));
        assert(counts.take(i + 1).drop_first() =~= tail.take(i));
        assert(counts.take(i)[0] == counts[0]);
        assert(counts.take(i + 1)[0] == counts[0]);
        lemma_count_total_nonneg(tail.take(i - 1));
        lemma_count_total_nonneg(tail.take(i));
        lemma_count_total_mono(tail, i - 1, i);
        let a = count_total(tail.take(i - 1));
        let b = count_total(tail.take(i));
        let lr = rest.len() as int;
        assert(split_counts_spec(items, counts)[i] == split_counts_spec(rest, tail)[i - 1]);
        assert(rest.subrange(clamp_to(a, lr), clamp_to(b, lr)) =~= items.subrange(
            clamp_to(counts[0] + a, items.len() as int),
            clamp_to(counts[0] + b, items.len() as int),
        ));
    }
}

proof fn lemma_split_len<T>(items: Seq<T>, counts: Seq<usize>)
    ensures
        split_counts_spec(items, counts).len() == counts.len(),
    decreases counts.len(),
{
    if counts.len() > 0 {
        let n = if counts[0] <= items.len() {
            counts[0] as int
        } else {
            items.len() as int
        };
        lemma_split_len(items.skip(n), counts.drop_first());
    }
}

proof fn lemma_count_total_mono(counts: Seq<usize>, a: int, b: int)
    requires
        0 <= a <= b <= counts.len(),
    ensures
        count_total(counts.take(a)) <= count_total(counts.take(b)),
    decreases b - a,
{
    if a < b {
        lemma_count_total_mono(counts, a, b - 1);
        lemma_count_total_push(counts.take(b - 1), counts[b - 1]);
        assert(counts.take(b - 1).push(counts[b - 1]) =~= counts.take(b));
    }
}

proof fn lemma_count_total_push(counts: Seq<usize>, c: usize)
    ensures
        count_total(counts.push(c)) == count_total(counts) + c,
    decreases counts.len(),
{
    if counts.len() > 0 {
        lemma_count_total_push(counts.drop_first(), c);
        assert(counts.push(c).drop_first() =~= counts.drop_first().push(c));
    } else {
        assert(counts.push(c).drop_first() =~= Seq::<usize>::empty());
        assert(count_total(counts.push(c).drop_first()) == 0);
        assert(count_total(counts) == 0);
    }
}

proof fn lemma_count_total_nonneg(counts: Seq<usize>)
    ensures
        count_total(counts) >= 0,
    decreases counts.len(),
{
    if counts.len() > 0 {
        lemma_count_total_nonneg(counts.drop_first());
    }
}

// ───────────── per-line alignment windows ─────────────

/// Margin added around each line's LRC span when re-aligning it on its own.
pub const WINDOW_MARGIN_MS: i64 = 1000;

/// Span given to the last line (no following timestamp to bound it).
pub const LAST_LINE_SPAN_MS: i64 = 12_000;

/// Song time of an LRC timestamp once the offset is applied.
pub open spec fn shifted(ts: u64, offset_ms: i64) -> int {
    ts as int + offset_ms as int
}

/// Window of line `i`: from its shifted timestamp to the next line's (or
/// `LAST_LINE_SPAN_MS` later for the last timestamped line), widened by
/// `WINDOW_MARGIN_MS` on both sides and clipped to `[0, end_ms]`; none for a
/// line without a timestamp or when nothing of the window is left.
pub open spec fn line_window(lines: Seq<LyricLine>, offset_ms: i64, end_ms: i64, i: int) -> Option<(int, int)> {
    match lines[i].ts_ms {
        None => None,
        Some(ts) => {
            let start = shifted(ts, offset_ms);
            let end = if i + 1 < lines.len() && lines[i + 1].ts_ms is Some {
                shifted(lines[i + 1].ts_ms->0, offset_ms)
            } else {
                start + LAST_LINE_SPAN_MS
            };
            let w0 = if start - WINDOW_MARGIN_MS > 0 {
                start - WINDOW_MARGIN_MS
            } else {
                0
            };
            let w1 = if end + WINDOW_MARGIN_MS < end_ms {
                end + WINDOW_MARGIN_MS
            } else {
                end_ms as int
            };
            if w1 > w0 {
                Some((w0, w1))
            } else {
                None
            }
        },
    }
}

/// Every shifted timestamp, with its margins and the last line's span, is an
/// `i64` (timestamps themselves below `i64::MAX`).
pub open spec fn windows_fit(lines: Seq<LyricLine>, offset_ms: i64) -> bool {
    forall|i: int|
        0 <= i < lines.len() ==> (#[trigger] lines[i].ts_ms matches Some(ts) ==> {
            &&& ts <= i64::MAX
            &&& i64::MIN + WINDOW_MARGIN_MS <= shifted(ts, offset_ms)
            &&& shifted(ts, offset_ms) + LAST_LINE_SPAN_MS + WINDOW_MARGIN_MS <= i64::MAX
        })
}

fn shifted_ms(ts: u64, offset_ms: i64) -> (r: i64)
    requires
        ts <= i64::MAX,
        i64::MIN <= shifted(ts, offset_ms) <= i64::MAX,
    ensures
        r == shifted(ts, offset_ms),
{
    ts as i64 + offset_ms
}

/// Per-line alignment windows in song milliseconds (see `line_window`).
pub fn line_windows(lines: &[LyricLine], offset_ms: i64, end_ms: i64) -> (r: Vec<Option<(i64, i64)>>)
    requires
        windows_fit(lines@, offset_ms),
    ensures
        r@.len() == lines@.len(),
        forall|i: int|
            0 <= i < lines@.len() ==> match (#[trigger] r@[i], line_window(lines@, offset_ms, end_ms, i)) {
                (Some(w), Some(s)) => w.0 == s.0 && w.1 == s.1,
                (None, None) => true,
                _ => false,
            },
{
    let n = lines.len();
    let mut out: Vec<Option<(i64, i64)>> = Vec::new();
    let mut i: usize = 0;
    while i < n
        invariant
            i <= n == lines@.len(),
            windows_fit(lines@, offset_ms),
            out@.len() == i,
            forall|j: int|
                0 <= j < i ==> match (#[trigger] out@[j], line_window(lines@, offset_ms, end_ms, j)) {
                    (Some(w), Some(s)) => w.0 == s.0 && w.1 == s.1,
                    (None, None) => true,
                    _ => false,
                },
        decreases n - i,
    {
        let w = match lines[i].ts_ms {
            None => None,
            Some(ts) => {
                assert(lines@[i as int].ts_ms matches Some(t) && t == ts);
                let start = shifted_ms(ts, offset_ms);
                let next = if i + 1 < n {
                    lines[i + 1].ts_ms
                } else {
                    None
                };
                let end = match next {
                    Some(nts) => {
                        assert(lines@[i + 1].ts_ms matches Some(t) && t == nts);
                        shifted_ms(nts, offset_ms)
                    },
                    None => start + LAST_LINE_SPAN_MS,
                };
                let w0 = if start - WINDOW_MARGIN_MS > 0 {
                    start - WINDOW_MARGIN_MS
                } else {
                    0
                };
                let w1 = if end + WINDOW_MARGIN_MS < end_ms {
                    end + WINDOW_MARGIN_MS
                } else {
                    end_ms
                };
                if w1 > w0 {
                    Some((w0, w1))
                } else {
                    None
                }
            },
        };
        out.push(w);
        i += 1;
    }
    out
}

/// Every window lies inside the song: it starts at or after 0, ends by
/// `end_ms`, and is not empty.
pub proof fn law_line_windows_inside_song(lines: Seq<LyricLine>, offset_ms: i64, end_ms: i64, i: int)
    requires
        0 <= i < lines.len(),
    ensures
        line_window(lines, offset_ms, end_ms, i) matches Some(w) ==> 0 <= w.0 < w.1 <= end_ms,
{
}

} // verus!
