//! words.json entries from per-line timed words: token cleaning, the LRC
//! offset estimate, re-timing of low-confidence runs and the monotonic guard.
use vstd::prelude::*;

use crate::sort::{
    int_key, lemma_sort_by_bounded, lemma_sort_by_filter_len, lemma_sort_by_len, lemma_sort_by_multiset, lemma_sort_by_sorted,
    sort_by, sort_i64, sorted_by,
};
use crate::text::{
    char_is_alphanumeric, chars_of, is_alphanumeric, lemma_trim_bounds, string_from_chars, trim_by,
};
use crate::word_timing::{LyricLine, WordEntry};

verus! {

/// A word with song-relative times in milliseconds, from any engine.
#[derive(Debug, Clone, PartialEq, Eq)]
pub struct TimedWord {
    pub word: String,
    pub start_ms: i64,
    pub end_ms: i64,
    /// Engine confidence in millionths (`1_000_000` is certain), when
    /// available (CTC mean emission probability).
    pub confidence: Option<u32>,
}

// ───────────── token cleaning ─────────────

pub open spec fn token_char(c: char) -> bool {
    is_alphanumeric(c) || c == '\'' || c == '-'
}

pub open spec fn not_token_char() -> spec_fn(char) -> bool {
    |c: char| !token_char(c)
}

/// A word with leading and trailing chars other than letters, digits,
/// apostrophes and hyphens stripped.
pub open spec fn clean_spec(raw: Seq<char>) -> Seq<char> {
    trim_by(raw, not_token_char())
}

fn is_token_char(c: char) -> (r: bool)
    ensures
        r == token_char(c),
{
    char_is_alphanumeric(c) || c == '\'' || c == '-'
}

fn clean_token(raw: &str) -> (r: String)
    ensures
        r@ == clean_spec(raw@),
{
    let v = chars_of(raw);
    let n = v.len();
    let mut i: usize = 0;
    while i < n && !is_token_char(v[i])
        invariant
            i <= n == v@.len(),
            forall|k: int| 0 <= k < i ==> !token_char(#[trigger] v@[k]),
        decreases n - i,
    {
        i += 1;
    }
    let mut j: usize = n;
    while j > i && !is_token_char(v[j - 1])
        invariant
            i <= j <= n == v@.len(),
            forall|k: int| j <= k < n ==> !token_char(#[trigger] v@[k]),
        decreases j,
    {
        j -= 1;
    }
    let mut kept: Vec<char> = Vec::new();
    let mut k: usize = i;
    while k < j
        invariant
            i <= k <= j <= n == v@.len(),
            kept@ == v@.subrange(i as int, k as int),
        decreases j - k,
    {
        kept.push(v[k]);
        k += 1;
    }
    proof {
        let p = not_token_char();
        assert(forall|c: char| #[trigger] p(c) == !token_char(c));
        lemma_trim_bounds(v@, p, i as int, j as int);
    }
    string_from_chars(&kept)
}

// ───────────── LRC offset estimate ─────────────

/// Largest spread (median absolute deviation) of per-line offsets for which
/// the LRC timing is considered consistent with the audio.
pub const MAX_OFFSET_SPREAD_MS: i64 = 600;

pub const MIN_OFFSET_SAMPLES: usize = 3;

/// Offset (audio minus LRC) of line `i`: its first word's start minus its
/// timestamp, for a line that has both.
pub open spec fn line_offset(lines: Seq<LyricLine>, per_line: Seq<Seq<TimedWord>>, i: int) -> Option<int> {
    match lines[i].ts_ms {
        Some(ts) => if per_line[i].len() > 0 {
            Some(per_line[i][0].start_ms - (ts as i64))
        } else {
            None
        },
        None => None,
    }
}

/// Offsets of the first `n` lines that have one, in line order.
pub open spec fn offsets_upto(lines: Seq<LyricLine>, per_line: Seq<Seq<TimedWord>>, n: int) -> Seq<i64>
    decreases n,
{
    if n <= 0 {
        seq![]
    } else {
        let prev = offsets_upto(lines, per_line, n - 1);
        match line_offset(lines, per_line, n - 1) {
            Some(d) => prev.push(d as i64),
            None => prev,
        }
    }
}

pub open spec fn paired(lines: Seq<LyricLine>, per_line: Seq<Seq<TimedWord>>) -> int {
    if lines.len() < per_line.len() {
        lines.len() as int
    } else {
        per_line.len() as int
    }
}

pub open spec fn line_offsets(lines: Seq<LyricLine>, per_line: Seq<Seq<TimedWord>>) -> Seq<i64> {
    offsets_upto(lines, per_line, paired(lines, per_line))
}

/// The element at the middle of the sorted values (the upper one of an even
/// count).
pub open spec fn median_spec(values: Seq<i64>) -> i64 {
    sort_by(values, int_key())[(values.len() / 2) as int]
}

pub open spec fn abs_int(x: int) -> int {
    if x < 0 {
        -x
    } else {
        x
    }
}

pub open spec fn deviations(values: Seq<i64>, m: i64) -> Seq<i64> {
    values.map_values(|d: i64| abs_int(d - m) as i64)
}

/// The value `estimate_lrc_offset_ms` returns: the median offset when there
/// are enough offsets and their median absolute deviation is small enough.
pub open spec fn estimated_offset(lines: Seq<LyricLine>, per_line: Seq<Seq<TimedWord>>) -> Option<i64> {
    let d = line_offsets(lines, per_line);
    if d.len() < MIN_OFFSET_SAMPLES {
        None
    } else {
        let m = median_spec(d);
        if median_spec(deviations(d, m)) <= MAX_OFFSET_SPREAD_MS {
            Some(m)
        } else {
            None
        }
    }
}

/// Every offset, and its distance to the median, is an `i64` (the inputs on
/// which the computation does not overflow).
pub open spec fn offsets_fit(lines: Seq<LyricLine>, per_line: Seq<Seq<TimedWord>>) -> bool {
    &&& forall|i: int|
        0 <= i < paired(lines, per_line) ==> (#[trigger] line_offset(lines, per_line, i) matches Some(
            d,
        ) ==> i64::MIN <= d <= i64::MAX)
    &&& line_offsets(lines, per_line).len() >= MIN_OFFSET_SAMPLES ==> forall|k: int|
        0 <= k < line_offsets(lines, per_line).len() ==> -i64::MAX <= #[trigger] line_offsets(
            lines,
            per_line,
        )[k] - median_spec(line_offsets(lines, per_line)) <= i64::MAX
}

fn median_i64(values: &Vec<i64>) -> (r: i64)
    requires
        values@.len() > 0,
    ensures
        r == median_spec(values@),
{
    let sorted = sort_i64(values);
    proof {
        lemma_sort_by_len(values@, int_key());
    }
    sorted[values.len() / 2]
}

/// Median offset (ms, audio minus LRC) between each line's first aligned word
/// and its LRC timestamp. `None` when there are too few lines or the offsets
/// disagree too much for the LRC timing to be trusted.
pub fn estimate_lrc_offset_ms(lines: &[LyricLine], per_line: &[Vec<TimedWord>]) -> (r: Option<i64>)
    requires
        offsets_fit(lines@, per_line@.map_values(|v: Vec<TimedWord>| v@)),
    ensures
        r == estimated_offset(lines@, per_line@.map_values(|v: Vec<TimedWord>| v@)),
{
    let ghost pl = per_line@.map_values(|v: Vec<TimedWord>| v@);
    let n = if lines.len() < per_line.len() {
        lines.len()
    } else {
        per_line.len()
    };
    let mut diffs: Vec<i64> = Vec::new();
    let mut i: usize = 0;
    while i < n
        invariant
            i <= n,
            n == paired(lines@, pl),
            pl == per_line@.map_values(|v: Vec<TimedWord>| v@),
            offsets_fit(lines@, pl),
            diffs@ == offsets_upto(lines@, pl, i as int),
        decreases n - i,
    {
        assert(pl[i as int] == per_line@[i as int]@);
        let ghost o = line_offset(lines@, pl, i as int);
        match lines[i].ts_ms {
            Some(ts) => {
                if per_line[i].len() > 0 {
                    let d = per_line[i][0].start_ms - ts as i64;
                    diffs.push(d);
                }
            },
            None => {},
        }
        i += 1;
    }
    if diffs.len() < MIN_OFFSET_SAMPLES {
        return None;
    }
    let offset = median_i64(&diffs);
    let mut dev: Vec<i64> = Vec::new();
    let mut k: usize = 0;
    while k < diffs.len()
        invariant
            k <= diffs@.len() >= MIN_OFFSET_SAMPLES,
            diffs@ == line_offsets(lines@, pl),
            offsets_fit(lines@, pl),
            offset == median_spec(diffs@),
            dev@ == deviations(diffs@.take(k as int), offset),
        decreases diffs@.len() - k,
    {
        let x = diffs[k] - offset;
        let a = if x < 0 {
            -x
        } else {
            x
        };
        proof {
            assert(diffs@.take(k + 1) =~= diffs@.take(k as int).push(diffs@[k as int]));
        }
        dev.push(a);
        assert(dev@ =~= deviations(diffs@.take(k + 1), offset));
        k += 1;
    }
    assert(diffs@.take(diffs@.len() as int) =~= diffs@);
    let spread = median_i64(&dev);
    if spread <= MAX_OFFSET_SPREAD_MS {
        Some(offset)
    } else {
        None
    }
}

/// The median is one of the values.
proof fn lemma_median_is_value(values: Seq<i64>)
    requires
        values.len() > 0,
    ensures
        values.contains(median_spec(values)),
{
    broadcast use vstd::seq_lib::group_to_multiset_ensures;

    let sorted = sort_by(values, int_key());
    lemma_sort_by_len(values, int_key());
    lemma_sort_by_multiset(values, int_key());
    let m = sorted[(values.len() / 2) as int];
    assert(sorted.contains(m));
    assert(sorted.to_multiset().count(m) > 0);
    assert(values.to_multiset().count(m) > 0);
}

/// Each collected offset comes from a line that has one.
proof fn lemma_offset_origin(lines: Seq<LyricLine>, per_line: Seq<Seq<TimedWord>>, n: int, k: int) -> (i: int)
    requires
        0 <= n <= paired(lines, per_line),
        0 <= k < offsets_upto(lines, per_line, n).len(),
    ensures
        0 <= i < n,
        line_offset(lines, per_line, i) is Some,
        offsets_upto(lines, per_line, n)[k] == line_offset(lines, per_line, i)->0 as i64,
    decreases n,
{
    let prev = offsets_upto(lines, per_line, n - 1);
    if k < prev.len() {
        lemma_offset_origin(lines, per_line, n - 1, k)
    } else {
        n - 1
    }
}

/// When every line has an offset, there is one per line.
proof fn lemma_offsets_count(lines: Seq<LyricLine>, per_line: Seq<Seq<TimedWord>>, n: int)
    requires
        0 <= n <= paired(lines, per_line),
        forall|i: int| 0 <= i < n ==> #[trigger] line_offset(lines, per_line, i) is Some,
    ensures
        offsets_upto(lines, per_line, n).len() == n,
    decreases n,
{
    if n > 0 {
        lemma_offsets_count(lines, per_line, n - 1);
    }
}

/// Inputs where every line's first-word offset is an `i64` computed without
/// wrapping: timestamps up to `i64::MAX`, differences inside `i64`.
pub open spec fn offsets_in_range(lines: Seq<LyricLine>, per_line: Seq<Seq<TimedWord>>) -> bool {
    forall|i: int|
        0 <= i < paired(lines, per_line) && #[trigger] lines[i].ts_ms is Some && per_line[i].len() > 0 ==> {
            let ts = lines[i].ts_ms->0;
            &&& ts <= i64::MAX
            &&& i64::MIN <= per_line[i][0].start_ms - ts <= i64::MAX
        }
}

/// The offset estimate measures each line from its first word: an estimate
/// is always the distance from some line's timestamp to that line's first
/// word, and when every line's first word starts the same `c` ms after the
/// line's timestamp (over at least three lines) the estimate is `c`.
pub proof fn law_offset_from_first_words(lines: Seq<LyricLine>, per_line: Seq<Seq<TimedWord>>, c: i64)
    requires
        offsets_in_range(lines, per_line),
    ensures
        estimated_offset(lines, per_line) matches Some(m) ==> exists|i: int|
            0 <= i < paired(lines, per_line) && #[trigger] lines[i].ts_ms is Some && per_line[i].len() > 0
                && m == per_line[i][0].start_ms - lines[i].ts_ms->0,
        ({
            &&& paired(lines, per_line) >= MIN_OFFSET_SAMPLES
            &&& forall|i: int|
                0 <= i < paired(lines, per_line) ==> #[trigger] lines[i].ts_ms is Some && per_line[i].len() > 0
                    && per_line[i][0].start_ms == lines[i].ts_ms->0 + c
        }) ==> estimated_offset(lines, per_line) == Some(c),
{
    let n = paired(lines, per_line);
    let d = line_offsets(lines, per_line);
    assert forall|i: int| 0 <= i < n && #[trigger] line_offset(lines, per_line, i) is Some implies line_offset(
        lines,
        per_line,
        i,
    )->0 == per_line[i][0].start_ms - lines[i].ts_ms->0 by {
        assert(lines[i].ts_ms is Some && per_line[i].len() > 0);
        let ts = lines[i].ts_ms->0;
        assert((ts as i64) as int == ts as int);
    }
    if estimated_offset(lines, per_line) is Some {
        let m = median_spec(d);
        lemma_median_is_value(d);
        let k = choose|k: int| 0 <= k < d.len() && d[k] == m;
        let i = lemma_offset_origin(lines, per_line, n, k);
        assert(lines[i].ts_ms is Some && per_line[i].len() > 0);
    }
    if n >= MIN_OFFSET_SAMPLES && forall|i: int|
        0 <= i < n ==> #[trigger] lines[i].ts_ms is Some && per_line[i].len() > 0
            && per_line[i][0].start_ms == lines[i].ts_ms->0 + c {
        assert forall|i: int| 0 <= i < n implies #[trigger] line_offset(lines, per_line, i) is Some by {
            assert(lines[i].ts_ms is Some && per_line[i].len() > 0);
        }
        lemma_offsets_count(lines, per_line, n);
        assert forall|k: int| 0 <= k < d.len() implies d[k] == c by {
            let i = lemma_offset_origin(lines, per_line, n, k);
            assert(lines[i].ts_ms is Some && per_line[i].len() > 0 && per_line[i][0].start_ms
                == lines[i].ts_ms->0 + c);
        }
        lemma_median_is_value(d);
        let m = median_spec(d);
        assert(m == c);
        let dev = deviations(d, m);
        assert forall|k: int| 0 <= k < dev.len() implies dev[k] == 0 by {
            assert(d[k] == c);
        }
        lemma_median_is_value(dev);
    }
}

pub open spec fn at_most(m: i64) -> spec_fn(i64) -> bool {
    |x: i64| x <= m
}

pub open spec fn at_least(m: i64) -> spec_fn(i64) -> bool {
    |x: i64| x >= m
}

/// All of `s[a..b]` satisfy `p`: at least `b - a` elements of `s` do.
proof fn lemma_filter_len_from_run(s: Seq<i64>, p: spec_fn(i64) -> bool, a: int, b: int)
    requires
        0 <= a <= b <= s.len(),
        forall|k: int| a <= k < b ==> p(#[trigger] s[k]),
    ensures
        s.filter(p).len() >= b - a,
    decreases b - a,
{
    broadcast use vstd::seq_lib::group_filter_ensures;

    if a < b {
        let x = s.take(a);
        let y = s.subrange(a, b);
        let z = s.skip(b);
        assert(s =~= x + y + z);
        vstd::seq::Seq::filter_distributes_over_add(x + y, z, p);
        vstd::seq::Seq::filter_distributes_over_add(x, y, p);
        assert forall|k: int| 0 <= k < y.len() implies p(#[trigger] y[k]) by {
            assert(y[k] == s[a + k]);
        }
        lemma_filter_all(y, p);
    }
}

proof fn lemma_filter_all(s: Seq<i64>, p: spec_fn(i64) -> bool)
    requires
        forall|k: int| 0 <= k < s.len() ==> p(#[trigger] s[k]),
    ensures
        s.filter(p) == s,
    decreases s.len(),
{
    if s.len() > 0 {
        let d = s.drop_last();
        lemma_filter_all(d, p);
        d.lemma_filter_push(s.last(), p);
        assert(d.push(s.last()) =~= s);
    } else {
        assert(s.filter(p) =~= s) by {
            reveal(Seq::filter);
        }
    }
}

/// The median splits the values: more than half are at most it and at
/// least half are at least it.
proof fn lemma_median_splits(values: Seq<i64>)
    requires
        values.len() > 0,
    ensures
        2 * values.filter(at_most(median_spec(values))).len() > values.len(),
        2 * values.filter(at_least(median_spec(values))).len() >= values.len(),
{
    let sorted = sort_by(values, int_key());
    let l = values.len() as int;
    lemma_sort_by_len(values, int_key());
    lemma_sort_by_sorted(values, int_key());
    let m = median_spec(values);
    let h = l / 2;
    assert forall|k: int| 0 <= k < h + 1 implies at_most(m)(#[trigger] sorted[k]) by {
        assert(int_key()(sorted[k]) <= int_key()(sorted[h]));
    }
    assert forall|k: int| h <= k < l implies at_least(m)(#[trigger] sorted[k]) by {
        assert(int_key()(sorted[h]) <= int_key()(sorted[k]));
    }
    lemma_filter_len_from_run(sorted, at_most(m), 0, h + 1);
    lemma_filter_len_from_run(sorted, at_least(m), h, l);
    lemma_sort_by_filter_len(values, int_key(), at_most(m));
    lemma_sort_by_filter_len(values, int_key(), at_least(m));
}

/// An estimate is a median of the per-line offsets: more than half of the
/// offsets are at most the estimate and at least half are at least it, and
/// their median distance to it is at most `MAX_OFFSET_SPREAD_MS`: more than
/// half of them lie within that distance.
pub proof fn law_offset_is_agreeing_median(lines: Seq<LyricLine>, per_line: Seq<Seq<TimedWord>>)
    ensures
        estimated_offset(lines, per_line) matches Some(m) ==> {
            let d = line_offsets(lines, per_line);
            &&& d.len() >= MIN_OFFSET_SAMPLES
            &&& 2 * d.filter(at_most(m)).len() > d.len()
            &&& 2 * d.filter(at_least(m)).len() >= d.len()
            &&& 2 * deviations(d, m).filter(at_most(MAX_OFFSET_SPREAD_MS)).len() > d.len()
        },
{
    let d = line_offsets(lines, per_line);
    if estimated_offset(lines, per_line) is Some {
        lemma_median_splits(d);
        let m = median_spec(d);
        let dev = deviations(d, m);
        lemma_median_splits(dev);
        let md = median_spec(dev);
        assert(md <= MAX_OFFSET_SPREAD_MS);
        lemma_filter_weaker(dev, at_most(md), at_most(MAX_OFFSET_SPREAD_MS));
    }
}

proof fn lemma_filter_weaker(s: Seq<i64>, p: spec_fn(i64) -> bool, q: spec_fn(i64) -> bool)
    requires
        forall|x: i64| #[trigger] p(x) ==> q(x),
    ensures
        s.filter(p).len() <= s.filter(q).len(),
    decreases s.len(),
{
    if s.len() > 0 {
        let d = s.drop_last();
        lemma_filter_weaker(d, p, q);
        d.lemma_filter_push(s.last(), p);
        d.lemma_filter_push(s.last(), q);
        assert(d.push(s.last()) =~= s);
    } else {
        assert(s.filter(p) =~= s) by {
            reveal(Seq::filter);
        }
        assert(s.filter(q) =~= s) by {
            reveal(Seq::filter);
        }
    }
}

// ───────────── low-confidence threshold ─────────────

/// Floor of the low-confidence threshold, in millionths.
pub const LOW_CONFIDENCE_FLOOR: u32 = 20_000;

/// Fewer known confidences than this and nothing counts as low.
pub const MIN_CONFIDENCE_SAMPLES: usize = 8;

/// Known confidences of one line's words, in order.
pub open spec fn line_confidences(ws: Seq<TimedWord>) -> Seq<i64>
    decreases ws.len(),
{
    if ws.len() == 0 {
        seq![]
    } else {
        let prev = line_confidences(ws.drop_last());
        match ws.last().confidence {
            Some(c) => prev.push(c as i64),
            None => prev,
        }
    }
}

/// Known confidences of every word, line after line.
pub open spec fn all_confidences(per_line: Seq<Seq<TimedWord>>) -> Seq<i64>
    decreases per_line.len(),
{
    if per_line.len() == 0 {
        seq![]
    } else {
        all_confidences(per_line.drop_last()) + line_confidences(per_line.last())
    }
}

/// A quarter of the median confidence, never below the floor; `None` with
/// too few known confidences.
pub open spec fn threshold_spec(per_line: Seq<Seq<TimedWord>>) -> Option<u32> {
    let all = all_confidences(per_line);
    if all.len() < MIN_CONFIDENCE_SAMPLES {
        None
    } else {
        let q = median_spec(all) / 4;
        Some(
            if q >= LOW_CONFIDENCE_FLOOR {
                q as u32
            } else {
                LOW_CONFIDENCE_FLOOR
            },
        )
    }
}

/// A word counts as unreliable below a quarter of the song's median confidence
/// (relative, so heavily processed vocals with uniformly low scores are left
/// alone), with an absolute floor.
fn low_confidence_threshold(per_line: &Vec<Vec<TimedWord>>) -> (r: Option<u32>)
    ensures
        r == threshold_spec(per_line@.map_values(|v: Vec<TimedWord>| v@)),
{
    let ghost pl = per_line@.map_values(|v: Vec<TimedWord>| v@);
    let mut all: Vec<i64> = Vec::new();
    let mut i: usize = 0;
    while i < per_line.len()
        invariant
            i <= per_line@.len() == pl.len(),
            pl == per_line@.map_values(|v: Vec<TimedWord>| v@),
            all@ == all_confidences(pl.take(i as int)),
            forall|k: int| 0 <= k < all@.len() ==> 0 <= #[trigger] all@[k] <= u32::MAX,
        decreases per_line@.len() - i,
    {
        let ws = &per_line[i];
        assert(pl[i as int] == ws@);
        let ghost base = all@;
        let mut j: usize = 0;
        while j < ws.len()
            invariant
                j <= ws@.len(),
                all@ == base + line_confidences(ws@.take(j as int)),
                forall|k: int| 0 <= k < all@.len() ==> 0 <= #[trigger] all@[k] <= u32::MAX,
            decreases ws@.len() - j,
        {
            assert(ws@.take(j + 1).drop_last() =~= ws@.take(j as int));
            match ws[j].confidence {
                Some(c) => {
                    all.push(c as i64);
                },
                None => {},
            }
            assert(all@ =~= base + line_confidences(ws@.take(j + 1)));
            j += 1;
        }
        proof {
            assert(ws@.take(ws@.len() as int) =~= ws@);
            assert(pl.take(i + 1).drop_last() =~= pl.take(i as int));
        }
        i += 1;
    }
    proof {
        assert(pl.take(pl.len() as int) =~= pl);
    }
    if all.len() < MIN_CONFIDENCE_SAMPLES {
        return None;
    }
    let m = median_i64(&all);
    proof {
        lemma_sort_by_bounded(all@, int_key(), 0, u32::MAX as int);
        lemma_sort_by_len(all@, int_key());
        let sv = sort_by(all@, int_key());
        assert(0 <= int_key()(sv[(all@.len() / 2) as int]) <= u32::MAX);
    }
    let q = (m as u32) / 4;
    if q >= LOW_CONFIDENCE_FLOOR {
        Some(q)
    } else {
        Some(LOW_CONFIDENCE_FLOOR)
    }
}

// ───────────── comparing two alignments of a line ─────────────

/// Sum of a sequence of confidences.
pub open spec fn total(s: Seq<i64>) -> int
    decreases s.len(),
{
    if s.len() == 0 {
        0
    } else {
        total(s.drop_last()) + s.last()
    }
}

/// The mean known confidence of `a` (0 when none is known) is higher than
/// that of `b`: the means compared exactly, as fractions.
pub open spec fn mean_confidence_above(a: Seq<TimedWord>, b: Seq<TimedWord>) -> bool {
    let (sa, na) = (total(line_confidences(a)), line_confidences(a).len() as int);
    let (sb, nb) = (total(line_confidences(b)), line_confidences(b).len() as int);
    na > 0 && if nb == 0 {
        sa > 0
    } else {
        sa * nb > sb * na
    }
}

proof fn lemma_compare_by_quotients(sa: int, na: int, sb: int, nb: int)
    requires
        na > 0,
        nb > 0,
        sa >= 0,
        sb >= 0,
    ensures
        (sa * nb > sb * na) == (sa / na > sb / nb || (sa / na == sb / nb && (sa % na) * nb > (sb % nb)
            * na)),
{
    let (qa, ra, qb, rb) = (sa / na, sa % na, sb / nb, sb % nb);
    assert(sa == qa * na + ra && 0 <= ra < na) by (nonlinear_arith)
        requires
            na > 0,
            qa == sa / na,
            ra == sa % na,
    ;
    assert(sb == qb * nb + rb && 0 <= rb < nb) by (nonlinear_arith)
        requires
            nb > 0,
            qb == sb / nb,
            rb == sb % nb,
    ;
    assert(sa * nb - sb * na == (qa - qb) * na * nb + ra * nb - rb * na) by (nonlinear_arith)
        requires
            sa == qa * na + ra,
            sb == qb * nb + rb,
    ;
    if qa > qb {
        assert((qa - qb) * na * nb >= na * nb) by (nonlinear_arith)
            requires
                qa - qb >= 1,
                na > 0,
                nb > 0,
        ;
        assert(rb * na < na * nb) by (nonlinear_arith)
            requires
                0 <= rb < nb,
                na > 0,
        ;
        assert(ra * nb >= 0) by (nonlinear_arith)
            requires
                ra >= 0,
                nb > 0,
        ;
    } else if qa < qb {
        assert((qa - qb) * na * nb <= -(na * nb)) by (nonlinear_arith)
            requires
                qb - qa >= 1,
                na > 0,
                nb > 0,
        ;
        assert(ra * nb < na * nb) by (nonlinear_arith)
            requires
                0 <= ra < na,
                nb > 0,
        ;
        assert(rb * na >= 0) by (nonlinear_arith)
            requires
                rb >= 0,
                na > 0,
        ;
    } else {
        assert((qa - qb) * na * nb == 0) by (nonlinear_arith)
            requires
                qa == qb,
        ;
    }
}

/// Sum and count of the known confidences of `ws`.
fn confidence_sum_count(ws: &Vec<TimedWord>) -> (r: (u128, u128))
    ensures
        r.0 == total(line_confidences(ws@)),
        r.1 == line_confidences(ws@).len(),
        r.1 <= usize::MAX,
{
    let mut sum: u128 = 0;
    let mut count: u128 = 0;
    let mut j: usize = 0;
    while j < ws.len()
        invariant
            j <= ws@.len(),
            sum == total(line_confidences(ws@.take(j as int))),
            count == line_confidences(ws@.take(j as int)).len(),
            count <= j,
            sum <= count * (u32::MAX as int),
        decreases ws@.len() - j,
    {
        assert(ws@.take(j + 1).drop_last() =~= ws@.take(j as int));
        match ws[j].confidence {
            Some(c) => {
                proof {
                    let prev = line_confidences(ws@.take(j as int));
                    assert(line_confidences(ws@.take(j + 1)) == prev.push(c as i64));
                    assert(prev.push(c as i64).drop_last() =~= prev);
                    assert(sum + c <= (count + 1) * (u32::MAX as int)) by (nonlinear_arith)
                        requires
                            sum <= count * (u32::MAX as int),
                            c <= u32::MAX,
                    ;
                }
                sum = sum + c as u128;
                count = count + 1;
            },
            None => {},
        }
        j += 1;
    }
    assert(ws@.take(ws@.len() as int) =~= ws@);
    (sum, count)
}

/// Whether `candidate` scores better than `current`: its mean known
/// confidence is higher (a line without any known confidence scores 0).
pub fn more_confident(candidate: &Vec<TimedWord>, current: &Vec<TimedWord>) -> (r: bool)
    ensures
        r == mean_confidence_above(candidate@, current@),
{
    let (sa, na) = confidence_sum_count(candidate);
    let (sb, nb) = confidence_sum_count(current);
    if na == 0 {
        return false;
    }
    if nb == 0 {
        return sa > 0;
    }
    proof {
        lemma_compare_by_quotients(sa as int, na as int, sb as int, nb as int);
    }
    let (qa, ra) = (sa / na, sa % na);
    let (qb, rb) = (sb / nb, sb % nb);
    if qa != qb {
        return qa > qb;
    }
    assert(ra * nb < u128::MAX) by (nonlinear_arith)
        requires
            ra < na,
            na <= usize::MAX,
            nb <= usize::MAX,
    ;
    assert(rb * na < u128::MAX) by (nonlinear_arith)
        requires
            rb < nb,
            na <= usize::MAX,
            nb <= usize::MAX,
    ;
    ra * nb > rb * na
}

/// One step of the per-line refinement: line `i`'s words, re-aligned inside
/// its own window, replace the words it has when the re-alignment found as
/// many words as the line holds and scores better.
pub fn refine_line(per_line: &mut Vec<Vec<TimedWord>>, i: usize, expected_words: usize, candidate: Vec<
    TimedWord,
>) -> (replaced: bool)
    requires
        i < old(per_line)@.len(),
    ensures
        replaced == (candidate@.len() == expected_words && mean_confidence_above(
            candidate@,
            old(per_line)@[i as int]@,
        )),
        replaced ==> final(per_line)@ == old(per_line)@.update(i as int, candidate),
        !replaced ==> final(per_line)@ == old(per_line)@,
{
    if candidate.len() != expected_words {
        return false;
    }
    if !more_confident(&candidate, &per_line[i]) {
        return false;
    }
    per_line.set(i, candidate);
    true
}

// ───────────── re-timing of low-confidence runs ─────────────

/// What a words.json entry holds, as plain values.
pub struct EntryModel {
    pub word: Seq<char>,
    pub start_ms: u64,
    pub end_ms: u64,
    pub line: Option<usize>,
    pub score: Option<u32>,
    pub estimated: bool,
}

pub open spec fn entry_model(e: WordEntry) -> EntryModel {
    EntryModel {
        word: e.word@,
        start_ms: e.start_ms,
        end_ms: e.end_ms,
        line: e.line,
        score: e.score,
        estimated: e.estimated,
    }
}

pub open spec fn entry_models(s: Seq<WordEntry>) -> Seq<EntryModel> {
    s.map_values(|e: WordEntry| entry_model(e))
}

pub open spec fn is_low(e: EntryModel, t: u32) -> bool {
    match e.score {
        Some(s) => s < t,
        None => false,
    }
}

/// First index of the run of low entries that contains `j`.
pub open spec fn low_run_start(es: Seq<EntryModel>, t: u32, j: int) -> int
    decreases j,
{
    if j > 0 && is_low(es[j - 1], t) {
        low_run_start(es, t, j - 1)
    } else {
        j
    }
}

/// One past the last index of the run of low entries that contains `j`.
pub open spec fn low_run_end(es: Seq<EntryModel>, t: u32, j: int) -> int
    decreases es.len() - j,
{
    if 0 <= j && j + 1 < es.len() && is_low(es[j + 1], t) {
        low_run_end(es, t, j + 1)
    } else {
        j + 1
    }
}

/// Share of a re-timed gap given to a word: its length in chars, at least 1.
pub open spec fn weight(e: EntryModel) -> nat {
    if e.word.len() == 0 {
        1
    } else {
        e.word.len()
    }
}

pub open spec fn weight_sum(es: Seq<EntryModel>, a: int, b: int) -> nat
    decreases b - a,
{
    if b <= a {
        0
    } else {
        weight_sum(es, a, b - 1) + weight(es[b - 1])
    }
}

pub open spec fn share(span: nat, w: nat, total: nat) -> nat {
    span * w / total
}

/// Where word `j` of a re-timed run starting at `a` begins, from the gap start.
pub open spec fn offset_in_run(es: Seq<EntryModel>, a: int, j: int, span: nat, total: nat) -> nat
    decreases j - a,
{
    if j <= a {
        0
    } else {
        offset_in_run(es, a, j - 1, span, total) + share(span, weight(es[j - 1]), total)
    }
}

/// Minimum time given to each re-timed word; tighter gaps are left as aligned.
pub const MIN_RETIMED_WORD_MS: u64 = 60;

/// The run `[a, b)` has a neighbour on both sides and room for every word.
pub open spec fn run_retimable(es: Seq<EntryModel>, a: int, b: int) -> bool {
    &&& 0 < a
    &&& b < es.len()
    &&& es[a - 1].end_ms < es[b].start_ms
    &&& es[b].start_ms - es[a - 1].end_ms >= MIN_RETIMED_WORD_MS * (b - a)
}

/// Entry `j` after re-timing: a low entry of a re-timable run gets a slice of
/// the gap between its neighbours proportional to its length; any other entry
/// is kept.
pub open spec fn retimed_entry(es: Seq<EntryModel>, t: u32, j: int) -> EntryModel {
    let e = es[j];
    let a = low_run_start(es, t, j);
    let b = low_run_end(es, t, j);
    if is_low(e, t) && run_retimable(es, a, b) {
        let gs = es[a - 1].end_ms;
        let ge = es[b].start_ms;
        let span = (ge - gs) as nat;
        let total = weight_sum(es, a, b);
        let start = gs + offset_in_run(es, a, j, span, total);
        EntryModel {
            word: e.word,
            start_ms: start as u64,
            end_ms: if j + 1 == b {
                ge
            } else {
                (start + share(span, weight(e), total)) as u64
            },
            line: e.line,
            score: e.score,
            estimated: true,
        }
    } else {
        e
    }
}

pub open spec fn retimed(es: Seq<EntryModel>, t: u32) -> Seq<EntryModel> {
    Seq::new(es.len(), |j: int| retimed_entry(es, t, j))
}

proof fn lemma_run_first(es: Seq<EntryModel>, t: u32, a: int, j: int)
    requires
        0 <= a <= j < es.len(),
        forall|k: int| a <= k <= j ==> is_low(#[trigger] es[k], t),
        a == 0 || !is_low(es[a - 1], t),
    ensures
        low_run_start(es, t, j) == a,
    decreases j - a,
{
    if j > a {
        lemma_run_first(es, t, a, j - 1);
    }
}

proof fn lemma_run_end(es: Seq<EntryModel>, t: u32, b: int, j: int)
    requires
        0 <= j < b <= es.len(),
        forall|k: int| j <= k < b ==> is_low(#[trigger] es[k], t),
        b == es.len() || !is_low(es[b], t),
    ensures
        low_run_end(es, t, j) == b,
    decreases b - j,
{
    if j + 1 < b {
        lemma_run_end(es, t, b, j + 1);
    }
}

proof fn lemma_weight_sum_mono(es: Seq<EntryModel>, a: int, j: int, b: int)
    requires
        a <= j <= b,
    ensures
        weight_sum(es, a, j) <= weight_sum(es, a, b),
    decreases b - j,
{
    if j < b {
        lemma_weight_sum_mono(es, a, j, b - 1);
    }
}

proof fn lemma_div_add(x: nat, y: nat, t: nat)
    requires
        t > 0,
    ensures
        x / t + y / t <= (x + y) / t,
{
    let qx = x / t;
    let qy = y / t;
    vstd::arithmetic::div_mod::lemma_fundamental_div_mod(x as int, t as int);
    vstd::arithmetic::div_mod::lemma_fundamental_div_mod(y as int, t as int);
    vstd::arithmetic::div_mod::lemma_mod_pos_bound(x as int, t as int);
    vstd::arithmetic::div_mod::lemma_mod_pos_bound(y as int, t as int);
    assert(t * qx + t * qy == t * (qx + qy)) by (nonlinear_arith);
    vstd::arithmetic::div_mod::lemma_div_is_ordered((t * (qx + qy)) as int, (x + y) as int, t as int);
    vstd::arithmetic::div_mod::lemma_div_multiples_vanish((qx + qy) as int, t as int);
}

/// The offsets inside a run never pass the share of the whole prefix.
proof fn lemma_offset_bound(es: Seq<EntryModel>, a: int, j: int, span: nat, total: nat)
    requires
        a <= j,
        total > 0,
    ensures
        offset_in_run(es, a, j, span, total) <= span * weight_sum(es, a, j) / total,
    decreases j - a,
{
    if j > a {
        lemma_offset_bound(es, a, j - 1, span, total);
        let w = weight(es[j - 1]);
        let prev = weight_sum(es, a, j - 1);
        lemma_div_add(span * prev, span * w, total);
        assert(span * prev + span * w == span * weight_sum(es, a, j)) by (nonlinear_arith)
            requires
                weight_sum(es, a, j) == prev + w,
        ;
    }
}

/// `span * part / total <= span` when `part <= total`.
proof fn lemma_share_le(span: nat, part: nat, total: nat)
    requires
        part <= total,
        total > 0,
    ensures
        span * part / total <= span,
{
    assert(span * part <= span * total) by (nonlinear_arith)
        requires
            part <= total,
    ;
    vstd::arithmetic::div_mod::lemma_div_is_ordered((span * part) as int, (span * total) as int, total as int);
    vstd::arithmetic::div_mod::lemma_div_by_multiple(span as int, total as int);
    assert(span * total == total * span) by (nonlinear_arith);
}

fn is_low_entry(e: &WordEntry, t: u32) -> (r: bool)
    ensures
        r == is_low(entry_model(*e), t),
{
    match e.score {
        Some(s) => s < t,
        None => false,
    }
}

fn entry_weight(e: &WordEntry) -> (r: u64)
    ensures
        r == weight(entry_model(*e)),
{
    let n = e.word.as_str().unicode_len();
    if n == 0 {
        1
    } else {
        n as u64
    }
}

fn retime_low_confidence_runs(entries: &mut Vec<WordEntry>, threshold: u32)
    ensures
        entry_models(final(entries)@) == retimed(entry_models(old(entries)@), threshold),
{
    let ghost es = entry_models(entries@);
    let n = entries.len();
    let mut i: usize = 0;
    while i < n
        invariant
            n == entries@.len() == es.len(),
            i <= n,
            forall|k: int|
                0 <= k < i ==> #[trigger] entry_model(entries@[k]) == retimed_entry(es, threshold, k),
            forall|k: int| i <= k < n ==> #[trigger] entry_model(entries@[k]) == es[k],
            i < n && is_low(es[i as int], threshold) && i > 0 ==> !is_low(es[i - 1], threshold),
        decreases n - i,
    {
        assert(entry_model(entries@[i as int]) == es[i as int]);
        if !is_low_entry(&entries[i], threshold) {
            i += 1;
            if i < n && is_low_entry(&entries[i], threshold) {
                assert(entry_model(entries@[i as int]) == es[i as int]);
            }
            continue;
        }
        let run_start = i;
        let mut j: usize = i;
        while j < n && is_low_entry(&entries[j], threshold)
            invariant
                n == entries@.len() == es.len(),
                run_start <= j <= n,
                forall|k: int| run_start <= k < j ==> is_low(#[trigger] es[k], threshold),
                forall|k: int| run_start <= k < n ==> #[trigger] entry_model(entries@[k]) == es[k],
            decreases n - j,
        {
            assert(entry_model(entries@[j as int]) == es[j as int]);
            j += 1;
        }
        let run_end = j;
        proof {
            if run_end < n {
                assert(entry_model(entries@[run_end as int]) == es[run_end as int]);
            }
            assert forall|k: int| run_start <= k < run_end implies #[trigger] low_run_start(
                es,
                threshold,
                k,
            ) == run_start by {
                lemma_run_first(es, threshold, run_start as int, k);
            }
            assert forall|k: int| run_start <= k < run_end implies #[trigger] low_run_end(
                es,
                threshold,
                k,
            ) == run_end by {
                lemma_run_end(es, threshold, run_end as int, k);
            }
        }
        let mut retime = run_start > 0 && run_end < n;
        if retime {
            assert(entry_model(entries@[run_start - 1]) == es[run_start - 1]);
            assert(entry_model(entries@[run_end as int]) == es[run_end as int]);
            let gap_start = entries[run_start - 1].end_ms;
            let gap_end = entries[run_end].start_ms;
            let run_len = (run_end - run_start) as u128;
            if gap_end <= gap_start || ((gap_end - gap_start) as u128) < (MIN_RETIMED_WORD_MS as u128)
                * run_len {
                retime = false;
            } else {
                let ghost a = run_start as int;
                let ghost b = run_end as int;
                let span = gap_end - gap_start;
                let mut total: u128 = 0;
                let mut k: usize = run_start;
                while k < run_end
                    invariant
                        run_start <= k <= run_end < n == entries@.len() == es.len(),
                        forall|m: int|
                            run_start <= m < n ==> #[trigger] entry_model(entries@[m]) == es[m],
                        a == run_start,
                        total == weight_sum(es, a, k as int),
                        total <= (k - run_start) * (u64::MAX as int),
                    decreases run_end - k,
                {
                    let w = entry_weight(&entries[k]);
                    assert(entry_model(entries@[k as int]) == es[k as int]);
                    proof {
                        assert((k - run_start) * (u64::MAX as int) + u64::MAX <= u64::MAX as int
                            * u64::MAX) by (nonlinear_arith)
                            requires
                                k - run_start < u64::MAX,
                        ;
                        assert((k - run_start + 1) * (u64::MAX as int) == (k - run_start) * (
                        u64::MAX as int) + u64::MAX) by (nonlinear_arith);
                    }
                    assert(weight_sum(es, a, k + 1) == weight_sum(es, a, k as int) + weight(
                        es[k as int],
                    ));
                    total = total + w as u128;
                    k += 1;
                }
                proof {
                    assert(weight_sum(es, a, b) > 0) by {
                        assert(weight_sum(es, a, b) == weight_sum(es, a, b - 1) + weight(es[b - 1]));
                        lemma_weight_sum_mono(es, a, a, b - 1);
                    }
                }
                let mut cursor = gap_start;
                let mut k: usize = run_start;
                while k < run_end
                    invariant
                        run_start <= k <= run_end < n == entries@.len() == es.len(),
                        0 < a == run_start,
                        b == run_end,
                        forall|m: int| a <= m < b ==> #[trigger] low_run_start(es, threshold, m) == a,
                        forall|m: int| a <= m < b ==> #[trigger] low_run_end(es, threshold, m) == b,
                        forall|m: int| a <= m < b ==> is_low(#[trigger] es[m], threshold),
                        run_retimable(es, a, b),
                        gap_start == es[a - 1].end_ms,
                        gap_end == es[b].start_ms,
                        span == gap_end - gap_start,
                        total == weight_sum(es, a, b),
                        total > 0,
                        k < run_end ==> cursor == gap_start + offset_in_run(
                            es,
                            a,
                            k as int,
                            span as nat,
                            total as nat,
                        ),
                        forall|m: int| 0 <= m < run_start ==> #[trigger] entry_model(entries@[m])
                            == retimed_entry(es, threshold, m),
                        forall|m: int| run_start <= m < k ==> #[trigger] entry_model(entries@[m])
                            == retimed_entry(es, threshold, m),
                        forall|m: int| k <= m < n ==> #[trigger] entry_model(entries@[m]) == es[m],
                    decreases run_end - k,
                {
                    let w = entry_weight(&entries[k]);
                    assert(entry_model(entries@[k as int]) == es[k as int]);
                    proof {
                        assert((span as int) * (w as int) <= u64::MAX as int * u64::MAX) by (
                        nonlinear_arith)
                            requires
                                span <= u64::MAX,
                                w <= u64::MAX,
                        ;
                        lemma_offset_bound(es, a, k + 1, span as nat, total as nat);
                        lemma_weight_sum_mono(es, a, k + 1, b);
                        lemma_share_le(span as nat, weight_sum(es, a, k + 1), total as nat);
                        assert(weight_sum(es, a, k + 1) == weight_sum(es, a, k as int) + w);
                        lemma_share_le(span as nat, w as nat, total as nat);
                    }
                    let len = ((span as u128) * (w as u128) / total) as u64;
                    let end = if k + 1 == run_end {
                        gap_end
                    } else {
                        cursor + len
                    };
                    entries[k].start_ms = cursor;
                    entries[k].end_ms = end;
                    entries[k].estimated = true;
                    proof {
                        assert(entry_model(entries@[k as int]) == retimed_entry(es, threshold, k as int));
                    }
                    assert(offset_in_run(es, a, k + 1, span as nat, total as nat) == offset_in_run(
                        es,
                        a,
                        k as int,
                        span as nat,
                        total as nat,
                    ) + share(span as nat, weight(es[k as int]), total as nat));
                    cursor = end;
                    k += 1;
                }
            }
        }
        if !retime {
            proof {
                assert forall|k: int| run_start <= k < run_end implies #[trigger] entry_model(
                    entries@[k],
                ) == retimed_entry(es, threshold, k) by {
                    assert(!run_retimable(es, run_start as int, run_end as int));
                }
            }
        }
        i = run_end;
    }
}

/// Re-timing never moves a start past the largest start there was.
proof fn lemma_retimed_starts(es: Seq<EntryModel>, t: u32, bound: int)
    requires
        forall|k: int| 0 <= k < es.len() ==> (#[trigger] es[k]).start_ms <= bound,
    ensures
        forall|k: int| 0 <= k < es.len() ==> (#[trigger] retimed(es, t)[k]).start_ms <= bound,
{
    assert forall|j: int| 0 <= j < es.len() implies (#[trigger] retimed(es, t)[j]).start_ms <= bound by {
        let a = low_run_start(es, t, j);
        let b = low_run_end(es, t, j);
        if is_low(es[j], t) && run_retimable(es, a, b) {
            lemma_low_run_bounds(es, t, j);
            let gs = es[a - 1].end_ms;
            let ge = es[b].start_ms;
            let span = (ge - gs) as nat;
            let total = weight_sum(es, a, b);
            lemma_weight_sum_mono(es, a, a, b - 1);
            assert(total == weight_sum(es, a, b - 1) + weight(es[b - 1]));
            lemma_offset_bound(es, a, j, span, total);
            lemma_weight_sum_mono(es, a, j, b);
            lemma_share_le(span, weight_sum(es, a, j), total);
            assert(es[b].start_ms <= bound);
        }
    }
}

/// The run containing `j` lies around `j`.
proof fn lemma_low_run_bounds(es: Seq<EntryModel>, t: u32, j: int)
    requires
        0 <= j < es.len(),
    ensures
        0 <= low_run_start(es, t, j) <= j,
        j < low_run_end(es, t, j) <= es.len(),
{
    lemma_low_run_start_bounds(es, t, j);
    lemma_low_run_end_bounds(es, t, j);
}

proof fn lemma_low_run_start_bounds(es: Seq<EntryModel>, t: u32, j: int)
    requires
        0 <= j,
    ensures
        0 <= low_run_start(es, t, j) <= j,
    decreases j,
{
    if j > 0 && is_low(es[j - 1], t) {
        lemma_low_run_start_bounds(es, t, j - 1);
    }
}

proof fn lemma_low_run_end_bounds(es: Seq<EntryModel>, t: u32, j: int)
    requires
        0 <= j < es.len(),
    ensures
        j < low_run_end(es, t, j) <= es.len(),
    decreases es.len() - j,
{
    if j + 1 < es.len() && is_low(es[j + 1], t) {
        lemma_low_run_end_bounds(es, t, j + 1);
    }
}

// ───────────── building the entries ─────────────

/// Timestamp that the words of line `idx` must not pass: the next line's
/// offset-corrected timestamp (never negative), or no limit.
pub open spec fn line_limit_ms(lines: Seq<LyricLine>, idx: int, offset: i64) -> u64 {
    if idx + 1 < lines.len() {
        match lines[idx + 1].ts_ms {
            Some(ts) => {
                let v = (ts as i64) + offset;
                if v < 0 {
                    0
                } else {
                    v as u64
                }
            },
            None => u64::MAX,
        }
    } else {
        u64::MAX
    }
}

/// Words that keep a char once cleaned.
pub open spec fn kept_word() -> spec_fn(TimedWord) -> bool {
    |w: TimedWord| clean_spec(w.word@).len() > 0
}

/// Entry of a timed word of line `idx`: negative times become 0, an empty
/// span gets 50 ms, and the word is clamped below the line end (its start at
/// least 50 ms before it).
pub open spec fn raw_entry(w: TimedWord, idx: int, le: u64) -> EntryModel {
    let s0: int = if w.start_ms < 0 {
        0
    } else {
        w.start_ms as int
    };
    let e0: int = if w.end_ms < 0 {
        0
    } else {
        w.end_ms as int
    };
    let e1: int = if e0 <= s0 {
        s0 + 50
    } else {
        e0
    };
    let cap: int = if le >= 50 {
        le - 50
    } else {
        0
    };
    EntryModel {
        word: clean_spec(w.word@),
        start_ms: (if s0 <= cap {
            s0
        } else {
            cap
        }) as u64,
        end_ms: (if e1 <= le {
            e1
        } else {
            le as int
        }) as u64,
        line: Some(idx as usize),
        score: w.confidence,
        estimated: false,
    }
}

pub open spec fn raw_maker(idx: int, le: u64) -> spec_fn(TimedWord) -> EntryModel {
    |w: TimedWord| raw_entry(w, idx, le)
}

pub open spec fn raw_entries(ws: Seq<TimedWord>, idx: int, le: u64) -> Seq<EntryModel> {
    ws.filter(kept_word()).map_values(raw_maker(idx, le))
}

/// Entries of line `idx`, re-timed when there is a threshold.
pub open spec fn line_entries_spec(
    lines: Seq<LyricLine>,
    per_line: Seq<Seq<TimedWord>>,
    idx: int,
    offset: i64,
    thr: Option<u32>,
) -> Seq<EntryModel> {
    let raw = raw_entries(per_line[idx], idx, line_limit_ms(lines, idx, offset));
    match thr {
        Some(t) => retimed(raw, t),
        None => raw,
    }
}

pub open spec fn entries_upto(
    lines: Seq<LyricLine>,
    per_line: Seq<Seq<TimedWord>>,
    offset: i64,
    thr: Option<u32>,
    n: int,
) -> Seq<EntryModel>
    decreases n,
{
    if n <= 0 {
        seq![]
    } else {
        entries_upto(lines, per_line, offset, thr, n - 1) + line_entries_spec(
            lines,
            per_line,
            n - 1,
            offset,
            thr,
        )
    }
}

/// Largest start among the first `n` entries (0 for none).
pub open spec fn max_start(es: Seq<EntryModel>, n: int) -> u64
    decreases n,
{
    if n <= 0 {
        0
    } else {
        let m = max_start(es, n - 1);
        if es[n - 1].start_ms < m {
            m
        } else {
            es[n - 1].start_ms
        }
    }
}

/// Entry `i` once starts are made monotonic: it starts no earlier than any
/// entry before it, and ends after it starts.
pub open spec fn guarded_entry(es: Seq<EntryModel>, i: int) -> EntryModel {
    let e = es[i];
    let s = max_start(es, i + 1);
    EntryModel {
        word: e.word,
        start_ms: s,
        end_ms: if e.end_ms <= s {
            (s + 50) as u64
        } else {
            e.end_ms
        },
        line: e.line,
        score: e.score,
        estimated: e.estimated,
    }
}

pub open spec fn guarded(es: Seq<EntryModel>) -> Seq<EntryModel> {
    Seq::new(es.len(), |i: int| guarded_entry(es, i))
}

pub open spec fn offset_or_zero(offset_ms: Option<i64>) -> i64 {
    match offset_ms {
        Some(o) => o,
        None => 0,
    }
}

/// What `build_entries` returns.
pub open spec fn built_entries(
    lines: Seq<LyricLine>,
    per_line: Seq<Seq<TimedWord>>,
    offset_ms: Option<i64>,
) -> Seq<EntryModel> {
    guarded(
        entries_upto(
            lines,
            per_line,
            offset_or_zero(offset_ms),
            threshold_spec(per_line),
            per_line.len() as int,
        ),
    )
}

/// The next-line timestamps, shifted by the offset, are `i64` values.
pub open spec fn line_ends_fit(lines: Seq<LyricLine>, n_lines: int, offset: i64) -> bool {
    forall|i: int|
        1 <= i < lines.len() && i <= n_lines ==> (#[trigger] lines[i].ts_ms matches Some(ts) ==> i64::MIN
            <= (ts as i64) + offset <= i64::MAX)
}

pub open spec fn starts_below(es: Seq<EntryModel>, bound: int) -> bool {
    forall|k: int| 0 <= k < es.len() ==> (#[trigger] es[k]).start_ms <= bound
}

proof fn lemma_max_start_bound(es: Seq<EntryModel>, n: int, bound: int)
    requires
        0 <= n <= es.len(),
        starts_below(es, bound),
        bound >= 0,
    ensures
        max_start(es, n) <= bound,
    decreases n,
{
    if n > 0 {
        lemma_max_start_bound(es, n - 1, bound);
    }
}

/// Build words.json entries from per-line timed words.
///
/// - Word ends never cross the next line's (offset-corrected) timestamp, so a
///   single misaligned word can't pull the next line's highlight forward.
/// - Runs of low-confidence words between two confident words of the same
///   line are re-timed evenly (by length) inside that gap.
/// - Starts are made globally monotonic.
pub fn build_entries(lines: &[LyricLine], per_line: Vec<Vec<TimedWord>>, offset_ms: Option<i64>) -> (r:
    Vec<WordEntry>)
    requires
        line_ends_fit(lines@, per_line@.len() as int, offset_or_zero(offset_ms)),
    ensures
        entry_models(r@) == built_entries(
            lines@,
            per_line@.map_values(|v: Vec<TimedWord>| v@),
            offset_ms,
        ),
{
    let ghost pl = per_line@.map_values(|v: Vec<TimedWord>| v@);
    let low_threshold = low_confidence_threshold(&per_line);
    let offset = match offset_ms {
        Some(o) => o,
        None => 0,
    };
    let ghost bound = i64::MAX as int;
    let mut out: Vec<WordEntry> = Vec::new();
    let mut line_idx: usize = 0;
    while line_idx < per_line.len()
        invariant
            line_idx <= per_line@.len() == pl.len(),
            pl == per_line@.map_values(|v: Vec<TimedWord>| v@),
            offset == offset_or_zero(offset_ms),
            low_threshold == threshold_spec(pl),
            line_ends_fit(lines@, per_line@.len() as int, offset),
            entry_models(out@) == entries_upto(lines@, pl, offset, low_threshold, line_idx as int),
            starts_below(entry_models(out@), bound),
            bound == i64::MAX as int,
        decreases per_line@.len() - line_idx,
    {
        let line_end_ms: u64 = if line_idx + 1 < lines.len() {
            match lines[line_idx + 1].ts_ms {
                Some(ts) => {
                    let v = ts as i64 + offset;
                    if v < 0 {
                        0
                    } else {
                        v as u64
                    }
                },
                None => u64::MAX,
            }
        } else {
            u64::MAX
        };
        assert(line_end_ms == line_limit_ms(lines@, line_idx as int, offset));
        let words = &per_line[line_idx];
        assert(pl[line_idx as int] == words@);
        let mut line_entries: Vec<WordEntry> = Vec::new();
        let mut j: usize = 0;
        while j < words.len()
            invariant
                j <= words@.len(),
                entry_models(line_entries@) == raw_entries(
                    words@.take(j as int),
                    line_idx as int,
                    line_end_ms,
                ),
                starts_below(entry_models(line_entries@), bound),
                bound == i64::MAX as int,
            decreases words@.len() - j,
        {
            let w = &words[j];
            proof {
                assert(words@.take(j + 1) =~= words@.take(j as int).push(*w));
                words@.take(j as int).lemma_filter_push(*w, kept_word());
            }
            let clean = clean_token(w.word.as_str());
            if !clean.as_str().is_empty() {
                let start0: u64 = if w.start_ms < 0 {
                    0
                } else {
                    w.start_ms as u64
                };
                let mut end0: u64 = if w.end_ms < 0 {
                    0
                } else {
                    w.end_ms as u64
                };
                if end0 <= start0 {
                    end0 = start0 + 50;
                }
                let cap: u64 = if line_end_ms >= 50 {
                    line_end_ms - 50
                } else {
                    0
                };
                let start_ms = if start0 <= cap {
                    start0
                } else {
                    cap
                };
                let end_ms = if end0 <= line_end_ms {
                    end0
                } else {
                    line_end_ms
                };
                let entry = WordEntry {
                    word: clean,
                    start_ms,
                    end_ms,
                    line: Some(line_idx),
                    score: w.confidence,
                    estimated: false,
                };
                proof {
                    let f = raw_maker(line_idx as int, line_end_ms);
                    let kept = words@.take(j as int).filter(kept_word());
                    assert(entry_model(entry) == f(*w));
                    assert(kept.push(*w).map_values(f) =~= kept.map_values(f).push(f(*w)));
                    assert(entry_models(line_entries@.push(entry)) =~= entry_models(
                        line_entries@,
                    ).push(entry_model(entry)));
                }
                line_entries.push(entry);
            }
            j += 1;
        }
        proof {
            assert(words@.take(words@.len() as int) =~= words@);
        }
        match low_threshold {
            Some(t) => {
                proof {
                    lemma_retimed_starts(entry_models(line_entries@), t, bound);
                }
                retime_low_confidence_runs(&mut line_entries, t);
            },
            None => {},
        }
        let ghost before = out@;
        let ghost added = line_entries@;
        out.append(&mut line_entries);
        proof {
            assert(entry_models(out@) =~= entry_models(before) + entry_models(added));
        }
        line_idx += 1;
    }
    let ghost es = entry_models(out@);
    proof {
        assert(pl.len() == per_line@.len());
        lemma_max_start_bound(es, es.len() as int, bound);
    }
    let mut last: u64 = 0;
    let mut k: usize = 0;
    while k < out.len()
        invariant
            k <= out@.len() == es.len(),
            starts_below(es, bound),
            bound == i64::MAX as int,
            last == max_start(es, k as int),
            forall|m: int| 0 <= m < k ==> #[trigger] entry_model(out@[m]) == guarded_entry(es, m),
            forall|m: int| k <= m < es.len() ==> #[trigger] entry_model(out@[m]) == es[m],
        decreases es.len() - k,
    {
        assert(entry_model(out@[k as int]) == es[k as int]);
        proof {
            lemma_max_start_bound(es, k + 1, bound);
        }
        if out[k].start_ms < last {
            out[k].start_ms = last;
        }
        if out[k].end_ms <= out[k].start_ms {
            out[k].end_ms = out[k].start_ms + 50;
        }
        last = out[k].start_ms;
        assert(entry_model(out@[k as int]) == guarded_entry(es, k as int));
        k += 1;
    }
    proof {
        assert(entry_models(out@) =~= guarded(es));
    }
    out
}

// ───────────── laws ─────────────

proof fn lemma_max_start_mono(es: Seq<EntryModel>, i: int, j: int)
    requires
        0 <= i <= j <= es.len(),
    ensures
        max_start(es, i) <= max_start(es, j),
    decreases j - i,
{
    if i < j {
        lemma_max_start_mono(es, i, j - 1);
    }
}

proof fn lemma_raw_starts(ws: Seq<TimedWord>, idx: int, le: u64)
    ensures
        starts_below(raw_entries(ws, idx, le), i64::MAX as int),
{
    let kept = ws.filter(kept_word());
    assert forall|k: int| 0 <= k < raw_entries(ws, idx, le).len() implies (#[trigger] raw_entries(
        ws,
        idx,
        le,
    )[k]).start_ms <= i64::MAX by {
        assert(raw_entries(ws, idx, le)[k] == raw_entry(kept[k], idx, le));
    }
}

proof fn lemma_entries_upto_starts(
    lines: Seq<LyricLine>,
    per_line: Seq<Seq<TimedWord>>,
    offset: i64,
    thr: Option<u32>,
    n: int,
)
    ensures
        starts_below(entries_upto(lines, per_line, offset, thr, n), i64::MAX as int),
    decreases n,
{
    if n > 0 {
        lemma_entries_upto_starts(lines, per_line, offset, thr, n - 1);
        let raw = raw_entries(per_line[n - 1], n - 1, line_limit_ms(lines, n - 1, offset));
        lemma_raw_starts(per_line[n - 1], n - 1, line_limit_ms(lines, n - 1, offset));
        if let Some(t) = thr {
            lemma_retimed_starts(raw, t, i64::MAX as int);
        }
        let prev = entries_upto(lines, per_line, offset, thr, n - 1);
        let cur = line_entries_spec(lines, per_line, n - 1, offset, thr);
        assert forall|k: int| 0 <= k < (prev + cur).len() implies (#[trigger] (prev + cur)[k]).start_ms
            <= i64::MAX by {
            if k >= prev.len() {
                assert((prev + cur)[k] == cur[k - prev.len()]);
            }
        }
    }
}

/// Word and line of an entry.
pub open spec fn entry_tags(es: Seq<EntryModel>) -> Seq<(Seq<char>, Option<usize>)> {
    es.map_values(|e: EntryModel| (e.word, e.line))
}

/// The cleaned words of the first `n` lines that are kept (those with a
/// letter, digit, apostrophe or hyphen left), each with its line, in order.
pub open spec fn kept_words_upto(per_line: Seq<Seq<TimedWord>>, n: int) -> Seq<(Seq<char>, Option<usize>)>
    decreases n,
{
    if n <= 0 {
        seq![]
    } else {
        kept_words_upto(per_line, n - 1) + per_line[n - 1].filter(kept_word()).map_values(
            |w: TimedWord| (clean_spec(w.word@), Some((n - 1) as usize)),
        )
    }
}

proof fn lemma_tags_line(
    lines: Seq<LyricLine>,
    per_line: Seq<Seq<TimedWord>>,
    idx: int,
    offset: i64,
    thr: Option<u32>,
)
    requires
        0 <= idx < per_line.len(),
    ensures
        entry_tags(line_entries_spec(lines, per_line, idx, offset, thr)) == per_line[idx].filter(
            kept_word(),
        ).map_values(|w: TimedWord| (clean_spec(w.word@), Some(idx as usize))),
{
    let raw = raw_entries(per_line[idx], idx, line_limit_ms(lines, idx, offset));
    let f = per_line[idx].filter(kept_word());
    let want = f.map_values(|w: TimedWord| (clean_spec(w.word@), Some(idx as usize)));
    assert(entry_tags(raw) =~= want);
    match thr {
        Some(t) => {
            assert(entry_tags(retimed(raw, t)) =~= entry_tags(raw));
        },
        None => {},
    }
}

proof fn lemma_tags_upto(
    lines: Seq<LyricLine>,
    per_line: Seq<Seq<TimedWord>>,
    offset: i64,
    thr: Option<u32>,
    n: int,
)
    requires
        0 <= n <= per_line.len(),
    ensures
        entry_tags(entries_upto(lines, per_line, offset, thr, n)) == kept_words_upto(per_line, n),
    decreases n,
{
    if n > 0 {
        lemma_tags_upto(lines, per_line, offset, thr, n - 1);
        lemma_tags_line(lines, per_line, n - 1, offset, thr);
        let a = entries_upto(lines, per_line, offset, thr, n - 1);
        let b = line_entries_spec(lines, per_line, n - 1, offset, thr);
        assert(entry_tags(a + b) =~= entry_tags(a) + entry_tags(b));
    } else {
        assert(entry_tags(entries_upto(lines, per_line, offset, thr, n)) =~= seq![]);
    }
}

/// The built entries are the kept words, one each, in line order: an entry's
/// word is the cleaned word and its line is the word's line.
pub proof fn law_built_entries_are_kept_words(
    lines: Seq<LyricLine>,
    per_line: Seq<Seq<TimedWord>>,
    offset_ms: Option<i64>,
)
    ensures
        entry_tags(built_entries(lines, per_line, offset_ms)) == kept_words_upto(per_line, per_line.len() as int),
{
    let es = entries_upto(
        lines,
        per_line,
        offset_or_zero(offset_ms),
        threshold_spec(per_line),
        per_line.len() as int,
    );
    lemma_tags_upto(lines, per_line, offset_or_zero(offset_ms), threshold_spec(per_line), per_line.len() as int);
    assert(entry_tags(guarded(es)) =~= entry_tags(es));
}

/// Starts of the built entries never go back, and every entry ends after it
/// starts.
pub proof fn law_built_entries_monotonic(
    lines: Seq<LyricLine>,
    per_line: Seq<Seq<TimedWord>>,
    offset_ms: Option<i64>,
)
    ensures
        ({
            let r = built_entries(lines, per_line, offset_ms);
            &&& forall|i: int, j: int|
                0 <= i <= j < r.len() ==> (#[trigger] r[i]).start_ms <= (#[trigger] r[j]).start_ms
            &&& forall|i: int| 0 <= i < r.len() ==> (#[trigger] r[i]).start_ms < r[i].end_ms
        }),
{
    let es = entries_upto(
        lines,
        per_line,
        offset_or_zero(offset_ms),
        threshold_spec(per_line),
        per_line.len() as int,
    );
    lemma_entries_upto_starts(
        lines,
        per_line,
        offset_or_zero(offset_ms),
        threshold_spec(per_line),
        per_line.len() as int,
    );
    let r = guarded(es);
    assert forall|i: int, j: int| 0 <= i <= j < r.len() implies (#[trigger] r[i]).start_ms <= (
    #[trigger] r[j]).start_ms by {
        lemma_max_start_mono(es, i + 1, j + 1);
    }
    assert forall|i: int| 0 <= i < r.len() implies (#[trigger] r[i]).start_ms < r[i].end_ms by {
        lemma_max_start_bound(es, i + 1, i64::MAX as int);
    }
}

/// A re-timed run of low-confidence words exactly fills the gap between its
/// confident neighbours: the first starts where the left neighbour ends, each
/// word ends where the next begins, the last ends where the right neighbour
/// starts, and each is marked as estimated.
pub proof fn law_retimed_run_fills_gap(es: Seq<EntryModel>, t: u32, a: int, b: int)
    requires
        0 < a < b < es.len(),
        forall|k: int| a <= k < b ==> is_low(#[trigger] es[k], t),
        !is_low(es[a - 1], t),
        !is_low(es[b], t),
        run_retimable(es, a, b),
    ensures
        retimed(es, t)[a].start_ms == es[a - 1].end_ms,
        retimed(es, t)[b - 1].end_ms == es[b].start_ms,
        forall|j: int| a <= j < b - 1 ==> (#[trigger] retimed(es, t)[j]).end_ms == retimed(es, t)[j
            + 1].start_ms,
        forall|j: int| a <= j < b ==> (#[trigger] retimed(es, t)[j]).estimated,
        retimed(es, t)[a - 1] == es[a - 1],
        retimed(es, t)[b] == es[b],
{
    let gs = es[a - 1].end_ms;
    let ge = es[b].start_ms;
    let span = (ge - gs) as nat;
    let total = weight_sum(es, a, b);
    assert(total == weight_sum(es, a, b - 1) + weight(es[b - 1]));
    lemma_weight_sum_mono(es, a, a, b - 1);
    assert forall|j: int| a <= j < b implies low_run_start(es, t, j) == a && #[trigger] low_run_end(
        es,
        t,
        j,
    ) == b by {
        lemma_run_first(es, t, a, j);
        lemma_run_end(es, t, b, j);
    }
    assert(low_run_start(es, t, a) == a);
    assert(low_run_end(es, t, a) == b);
    assert(retimed(es, t)[a].start_ms == gs) by {
        assert(offset_in_run(es, a, a, span, total) == 0);
    }
    assert forall|j: int| a <= j < b - 1 implies (#[trigger] retimed(es, t)[j]).end_ms == retimed(
        es,
        t,
    )[j + 1].start_ms by {
        assert(low_run_start(es, t, j + 1) == a);
        assert(low_run_end(es, t, j + 1) == b);
        assert(low_run_end(es, t, j) == b);
        lemma_offset_bound(es, a, j + 1, span, total);
        lemma_weight_sum_mono(es, a, j + 1, b);
        lemma_share_le(span, weight_sum(es, a, j + 1), total);
        assert(offset_in_run(es, a, j + 1, span, total) == offset_in_run(es, a, j, span, total)
            + share(span, weight(es[j]), total));
    }
    assert(low_run_end(es, t, b - 1) == b);
    assert forall|j: int| a <= j < b implies (#[trigger] retimed(es, t)[j]).estimated by {
        assert(low_run_end(es, t, j) == b);
    }
}

/// Before the monotonic guard, no entry of a line ends after the line's limit
/// (the next line's offset-corrected timestamp).
pub proof fn law_line_entries_end_by_limit(
    lines: Seq<LyricLine>,
    per_line: Seq<Seq<TimedWord>>,
    idx: int,
    offset: i64,
    thr: Option<u32>,
)
    requires
        0 <= idx < per_line.len(),
    ensures
        forall|k: int|
            0 <= k < line_entries_spec(lines, per_line, idx, offset, thr).len() ==> (
            #[trigger] line_entries_spec(lines, per_line, idx, offset, thr)[k]).end_ms
                <= line_limit_ms(lines, idx, offset),
{
    let le = line_limit_ms(lines, idx, offset);
    let ws = per_line[idx];
    let raw = raw_entries(ws, idx, le);
    let kept = ws.filter(kept_word());
    assert forall|k: int| 0 <= k < raw.len() implies (#[trigger] raw[k]).end_ms <= le && raw[k].start_ms
        <= le by {
        assert(raw[k] == raw_entry(kept[k], idx, le));
    }
    if let Some(t) = thr {
        let r = retimed(raw, t);
        assert forall|j: int| 0 <= j < r.len() implies (#[trigger] r[j]).end_ms <= le by {
            let a = low_run_start(raw, t, j);
            let b = low_run_end(raw, t, j);
            if is_low(raw[j], t) && run_retimable(raw, a, b) {
                lemma_low_run_bounds(raw, t, j);
                let gs = raw[a - 1].end_ms;
                let ge = raw[b].start_ms;
                let span = (ge - gs) as nat;
                let total = weight_sum(raw, a, b);
                assert(total == weight_sum(raw, a, b - 1) + weight(raw[b - 1]));
                lemma_weight_sum_mono(raw, a, a, b - 1);
                lemma_offset_bound(raw, a, j + 1, span, total);
                lemma_weight_sum_mono(raw, a, j + 1, b);
                lemma_share_le(span, weight_sum(raw, a, j + 1), total);
                assert(offset_in_run(raw, a, j + 1, span, total) == offset_in_run(raw, a, j, span, total)
                    + share(span, weight(raw[j]), total));
                assert(raw[b].start_ms <= le);
            }
        }
    }
}

/// Latest start allowed to a word of line `idx`: 50 ms before its limit.
pub open spec fn start_cap(lines: Seq<LyricLine>, idx: int, offset: i64) -> int {
    let le = line_limit_ms(lines, idx, offset);
    if le >= 50 {
        le - 50
    } else {
        0
    }
}

/// Line index of an entry (as stored).
pub open spec fn line_of(e: EntryModel) -> int {
    match e.line {
        Some(l) => l as int,
        None => -1,
    }
}

/// Every entry of line `idx`, before the guard, carries that line, starts by
/// the line's start cap and ends by its limit.
proof fn lemma_line_entries_bounded(
    lines: Seq<LyricLine>,
    per_line: Seq<Seq<TimedWord>>,
    idx: int,
    offset: i64,
    thr: Option<u32>,
)
    requires
        0 <= idx < per_line.len(),
        per_line.len() <= usize::MAX,
    ensures
        forall|k: int|
            0 <= k < line_entries_spec(lines, per_line, idx, offset, thr).len() ==> {
                let e = #[trigger] line_entries_spec(lines, per_line, idx, offset, thr)[k];
                &&& line_of(e) == idx
                &&& e.start_ms <= start_cap(lines, idx, offset)
                &&& e.end_ms <= line_limit_ms(lines, idx, offset)
            },
{
    law_line_entries_end_by_limit(lines, per_line, idx, offset, thr);
    lemma_tags_line(lines, per_line, idx, offset, thr);
    let le = line_limit_ms(lines, idx, offset);
    let ws = per_line[idx];
    let raw = raw_entries(ws, idx, le);
    let kept = ws.filter(kept_word());
    let cap = start_cap(lines, idx, offset);
    let es = line_entries_spec(lines, per_line, idx, offset, thr);
    assert forall|k: int| 0 <= k < raw.len() implies (#[trigger] raw[k]).start_ms <= cap by {
        assert(raw[k] == raw_entry(kept[k], idx, le));
    }
    assert forall|k: int| 0 <= k < es.len() implies (#[trigger] es[k]).start_ms <= cap by {
        if let Some(t) = thr {
            let j = k;
            let a = low_run_start(raw, t, j);
            let b = low_run_end(raw, t, j);
            if is_low(raw[j], t) && run_retimable(raw, a, b) {
                lemma_low_run_bounds(raw, t, j);
                let gs = raw[a - 1].end_ms;
                let ge = raw[b].start_ms;
                let span = (ge - gs) as nat;
                let total = weight_sum(raw, a, b);
                assert(total == weight_sum(raw, a, b - 1) + weight(raw[b - 1]));
                lemma_weight_sum_mono(raw, a, a, b - 1);
                lemma_offset_bound(raw, a, j + 1, span, total);
                lemma_weight_sum_mono(raw, a, j + 1, b);
                lemma_share_le(span, weight_sum(raw, a, j + 1), total);
                assert(offset_in_run(raw, a, j + 1, span, total) == offset_in_run(raw, a, j, span, total)
                    + share(span, weight(raw[j]), total));
                assert(raw[b].start_ms <= cap);
            }
        }
    }
    assert forall|k: int| 0 <= k < es.len() implies line_of(#[trigger] es[k]) == idx by {
        assert(entry_tags(es)[k] == (es[k].word, es[k].line));
    }
}

proof fn lemma_upto_bounded(
    lines: Seq<LyricLine>,
    per_line: Seq<Seq<TimedWord>>,
    offset: i64,
    thr: Option<u32>,
    n: int,
)
    requires
        0 <= n <= per_line.len(),
        per_line.len() <= usize::MAX,
    ensures
        forall|k: int|
            0 <= k < entries_upto(lines, per_line, offset, thr, n).len() ==> {
                let e = #[trigger] entries_upto(lines, per_line, offset, thr, n)[k];
                &&& 0 <= line_of(e) < n
                &&& e.start_ms <= start_cap(lines, line_of(e), offset)
                &&& e.end_ms <= line_limit_ms(lines, line_of(e), offset)
            },
        forall|k1: int, k2: int|
            0 <= k1 <= k2 < entries_upto(lines, per_line, offset, thr, n).len() ==> line_of(
                #[trigger] entries_upto(lines, per_line, offset, thr, n)[k1],
            ) <= line_of(#[trigger] entries_upto(lines, per_line, offset, thr, n)[k2]),
    decreases n,
{
    if n > 0 {
        lemma_upto_bounded(lines, per_line, offset, thr, n - 1);
        lemma_line_entries_bounded(lines, per_line, n - 1, offset, thr);
        let a = entries_upto(lines, per_line, offset, thr, n - 1);
        let b = line_entries_spec(lines, per_line, n - 1, offset, thr);
        let es = entries_upto(lines, per_line, offset, thr, n);
        assert(es == a + b);
        assert forall|k: int| 0 <= k < es.len() implies {
            let e = #[trigger] es[k];
            &&& 0 <= line_of(e) < n
            &&& e.start_ms <= start_cap(lines, line_of(e), offset)
            &&& e.end_ms <= line_limit_ms(lines, line_of(e), offset)
        } by {
            if k < a.len() {
                assert(es[k] == a[k]);
            } else {
                assert(es[k] == b[k - a.len()]);
            }
        }
        assert forall|k1: int, k2: int| 0 <= k1 <= k2 < es.len() implies line_of(#[trigger] es[k1])
            <= line_of(#[trigger] es[k2]) by {
            if k2 < a.len() {
                assert(es[k1] == a[k1] && es[k2] == a[k2]);
            } else if k1 < a.len() {
                assert(es[k1] == a[k1] && es[k2] == b[k2 - a.len()]);
            } else {
                assert(es[k1] == b[k1 - a.len()] && es[k2] == b[k2 - a.len()]);
            }
        }
    }
}

/// Lines as `parse_lrc` gives them: every line after the first has a
/// timestamp, timestamps never go back, and shifted by the offset each is
/// at least 50 ms and an `i64`.
pub open spec fn timed_lines(lines: Seq<LyricLine>, offset: i64) -> bool {
    &&& forall|i: int|
        1 <= i < lines.len() ==> (#[trigger] lines[i].ts_ms matches Some(ts) && ts <= i64::MAX && 50
            <= ts + offset <= i64::MAX)
    &&& forall|i: int, j: int|
        1 <= i <= j < lines.len() ==> (#[trigger] lines[i].ts_ms)->0 <= (#[trigger] lines[j].ts_ms)->0
}

proof fn lemma_cap_mono(lines: Seq<LyricLine>, offset: i64, j: int, l: int)
    requires
        timed_lines(lines, offset),
        0 <= j <= l,
    ensures
        start_cap(lines, j, offset) <= start_cap(lines, l, offset),
        start_cap(lines, l, offset) + 50 == line_limit_ms(lines, l, offset),
        line_limit_ms(lines, l, offset) >= 50,
{
    if l + 1 < lines.len() {
        let ts = lines[l + 1].ts_ms->0;
        assert(lines[l + 1].ts_ms matches Some(t) && t <= i64::MAX && 50 <= t + offset <= i64::MAX);
        assert((ts as i64) as int == ts as int);
        if j + 1 < lines.len() {
            assert(lines[j + 1].ts_ms matches Some(t) && t <= i64::MAX && 50 <= t + offset);
            assert((lines[j + 1].ts_ms->0 as i64) as int == lines[j + 1].ts_ms->0 as int);
            assert(lines[j + 1].ts_ms->0 <= lines[l + 1].ts_ms->0);
        }
    }
}

proof fn lemma_max_start_prefix_bound(es: Seq<EntryModel>, n: int, bound: int)
    requires
        0 <= n <= es.len(),
        forall|k: int| 0 <= k < n ==> (#[trigger] es[k]).start_ms <= bound,
        bound >= 0,
    ensures
        max_start(es, n) <= bound,
    decreases n,
{
    if n > 0 {
        lemma_max_start_prefix_bound(es, n - 1, bound);
    }
}

/// After the monotonic guard, every entry still ends by its line's limit:
/// for lines as `parse_lrc` gives them, a word of line `l` never ends after
/// line `l + 1`'s offset-corrected timestamp.
pub proof fn law_built_entries_end_by_next_line(
    lines: Seq<LyricLine>,
    per_line: Seq<Seq<TimedWord>>,
    offset_ms: Option<i64>,
)
    requires
        timed_lines(lines, offset_or_zero(offset_ms)),
        per_line.len() <= usize::MAX,
    ensures
        forall|i: int|
            0 <= i < built_entries(lines, per_line, offset_ms).len() ==> {
                let e = #[trigger] built_entries(lines, per_line, offset_ms)[i];
                &&& 0 <= line_of(e) < per_line.len()
                &&& e.end_ms <= line_limit_ms(lines, line_of(e), offset_or_zero(offset_ms))
            },
        forall|i: int|
            0 <= i < built_entries(lines, per_line, offset_ms).len() && line_of(
                #[trigger] built_entries(lines, per_line, offset_ms)[i],
            ) + 1 < lines.len() ==> built_entries(lines, per_line, offset_ms)[i].end_ms
                <= lines[line_of(built_entries(lines, per_line, offset_ms)[i]) + 1].ts_ms->0
                + offset_or_zero(offset_ms),
{
    let off = offset_or_zero(offset_ms);
    let thr = threshold_spec(per_line);
    let n = per_line.len() as int;
    let es = entries_upto(lines, per_line, off, thr, n);
    lemma_upto_bounded(lines, per_line, off, thr, n);
    let r = built_entries(lines, per_line, offset_ms);
    assert forall|i: int| 0 <= i < r.len() implies {
        let e = #[trigger] r[i];
        &&& 0 <= line_of(e) < per_line.len()
        &&& e.end_ms <= line_limit_ms(lines, line_of(e), off)
    } by {
        let l = line_of(es[i]);
        lemma_cap_mono(lines, off, l, l);
        assert forall|k: int| 0 <= k < i + 1 implies (#[trigger] es[k]).start_ms <= start_cap(lines, l, off) by {
            lemma_cap_mono(lines, off, line_of(es[k]), l);
        }
        lemma_max_start_prefix_bound(es, i + 1, start_cap(lines, l, off));
        assert(r[i] == guarded_entry(es, i));
    }
    assert forall|i: int|
        0 <= i < r.len() && line_of(#[trigger] r[i]) + 1 < lines.len() implies r[i].end_ms
            <= lines[line_of(r[i]) + 1].ts_ms->0 + off by {
        let l = line_of(r[i]);
        assert(lines[l + 1].ts_ms matches Some(t) && t <= i64::MAX && 50 <= t + off <= i64::MAX);
        assert((lines[l + 1].ts_ms->0 as i64) as int == lines[l + 1].ts_ms->0 as int);
    }
}

} // verus!
