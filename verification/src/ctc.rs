//! Integer side of CTC forced alignment: the extended target sequence, the
//! backtrack through the Viterbi choices, per-token frame spans and their
//! aggregation into words.
use vstd::prelude::*;

verus! {

/// Per-token frame span (`start_frame`, `end_frame`) inclusive.
#[derive(Debug, Clone, Copy, PartialEq, Eq, Structural)]
pub struct TokenSpan {
    pub start: usize,
    pub end: usize,
}

// ───────────── extended targets ─────────────

/// `blank, t0, blank, t1, ..., blank`: a blank between every target and at
/// both ends (length `2n + 1`).
pub open spec fn extended_spec(targets: Seq<u32>, blank_id: u32) -> Seq<u32> {
    Seq::new(
        2 * targets.len() + 1,
        |i: int|
            if i % 2 == 0 {
                blank_id
            } else {
                targets[i / 2]
            },
    )
}

pub fn extended_targets(targets: &[u32], blank_id: u32) -> (r: Vec<u32>)
    requires
        2 * targets@.len() + 1 <= usize::MAX,
    ensures
        r@ == extended_spec(targets@, blank_id),
{
    let m = 2 * targets.len() + 1;
    let mut ext: Vec<u32> = Vec::new();
    let mut i: usize = 0;
    while i < m
        invariant
            i <= m == 2 * targets@.len() + 1,
            ext@ == extended_spec(targets@, blank_id).take(i as int),
        decreases m - i,
    {
        let x = if i % 2 == 0 {
            blank_id
        } else {
            targets[i / 2]
        };
        ext.push(x);
        assert(ext@ =~= extended_spec(targets@, blank_id).take(i + 1));
        i += 1;
    }
    assert(ext@ =~= extended_spec(targets@, blank_id));
    ext
}

// ───────────── backtrack ─────────────

/// The state before `s` under a back-pointer: 0 stays, 1 steps back one
/// state, 2 skips back two (never below state 0); any other value stays.
pub open spec fn step_back(choice: u8, s: int) -> int {
    if choice == 1 {
        if s >= 1 {
            s - 1
        } else {
            0
        }
    } else if choice == 2 {
        if s >= 2 {
            s - 2
        } else {
            0
        }
    } else {
        s
    }
}

/// State at frame `time` when frame `frames - 1` ends in `last`, following
/// the back-pointers `back` (row-major, `width` states per frame).
pub open spec fn state_at(back: Seq<u8>, width: int, frames: int, last: int, time: int) -> int
    decreases frames - time,
{
    if time >= frames - 1 {
        last
    } else {
        let next = state_at(back, width, frames, last, time + 1);
        step_back(back[(time + 1) * width + next], next)
    }
}

proof fn lemma_state_in_range(back: Seq<u8>, width: int, frames: int, last: int, time: int)
    requires
        0 <= last < width,
    ensures
        0 <= state_at(back, width, frames, last, time) < width,
    decreases frames - time,
{
    if time < frames - 1 {
        lemma_state_in_range(back, width, frames, last, time + 1);
    }
}

/// Per-frame states of the best path, read back from its last frame.
pub fn backtrack_states(back: &[u8], frames: usize, width: usize, last: usize) -> (r: Vec<usize>)
    requires
        frames >= 1,
        last < width,
        back@.len() == frames * width,
    ensures
        r@.len() == frames,
        forall|time: int|
            0 <= time < frames ==> #[trigger] r@[time] == state_at(
                back@,
                width as int,
                frames as int,
                last as int,
                time,
            ),
{
    let mut states: Vec<usize> = Vec::new();
    let mut k: usize = 0;
    while k < frames
        invariant
            k <= frames,
            states@.len() == k,
            forall|i: int| 0 <= i < k ==> #[trigger] states@[i] == 0,
        decreases frames - k,
    {
        states.push(0);
        k += 1;
    }
    let total = back.len();
    let mut s = last;
    states.set(frames - 1, s);
    let mut time = frames - 1;
    while time > 0
        invariant
            1 <= frames,
            time <= frames - 1,
            states@.len() == frames,
            back@.len() == frames * width,
            total == back@.len(),
            last < width,
            s == state_at(back@, width as int, frames as int, last as int, time as int),
            forall|i: int|
                time <= i < frames ==> #[trigger] states@[i] == state_at(
                    back@,
                    width as int,
                    frames as int,
                    last as int,
                    i,
                ),
        decreases time,
    {
        proof {
            lemma_state_in_range(back@, width as int, frames as int, last as int, time as int);
            assert(time * width + s < frames * width) by (nonlinear_arith)
                requires
                    time < frames,
                    s < width,
            ;
            assert(time * width <= time * width + s);
        }
        let choice = back[time * width + s];
        s = if choice == 1 {
            if s >= 1 {
                s - 1
            } else {
                0
            }
        } else if choice == 2 {
            if s >= 2 {
                s - 2
            } else {
                0
            }
        } else {
            s
        };
        states.set(time - 1, s);
        time -= 1;
    }
    states
}

/// The CTC skip rule: state `s` may be entered from two states back only
/// when its symbol is a target (not blank) that differs from the one two
/// back.
pub open spec fn skip_ok(ext: Seq<u32>, s: int, blank_id: u32) -> bool {
    s >= 2 && s < ext.len() && ext[s] != blank_id && ext[s] != ext[s - 2]
}

/// Whether the Viterbi may enter state `s` by skipping the blank before it.
pub fn skip_allowed(ext: &[u32], s: usize, blank_id: u32) -> (r: bool)
    ensures
        r == skip_ok(ext@, s as int, blank_id),
{
    s >= 2 && s < ext.len() && ext[s] != blank_id && ext[s] != ext[s - 2]
}

/// States `[lo, hi)` the Viterbi fills at frame `time` of `frames` over `m`
/// states: those still able to reach the end (`m - 2 (frames - time)` on)
/// and reachable from the start (below `2 time + 2`).
pub fn viterbi_band(m: usize, frames: usize, time: usize) -> (r: (usize, usize))
    requires
        time < frames,
        2 * frames + 2 <= usize::MAX,
    ensures
        r.0 == (if m >= 2 * (frames - time) { m - 2 * (frames - time) } else { 0int }),
        r.1 == (if 2 * time + 2 <= m { 2 * time + 2 } else { m as int }),
{
    let left = 2 * (frames - time);
    let lo = if m >= left { m - left } else { 0 };
    let hi = if 2 * time + 2 <= m { 2 * time + 2 } else { m };
    (lo, hi)
}

/// The back-pointers respect the CTC rule: a skip is recorded only where the
/// rule allows it.
pub open spec fn back_respects_skip(back: Seq<u8>, ext: Seq<u32>, blank_id: u32, frames: int) -> bool {
    forall|time: int, s: int|
        1 <= time < frames && 0 <= s < ext.len() && #[trigger] back[time * ext.len() + s] == 2 ==> s < 2
            || skip_ok(ext, s, blank_id)
}

/// A path read back through back-pointers that respect the CTC rule is a
/// CTC path: from one frame to the next the state stays, moves on by one, or
/// skips a blank into a target that differs from the one before it.
pub proof fn law_backtrack_is_ctc_path(
    back: Seq<u8>,
    ext: Seq<u32>,
    blank_id: u32,
    frames: int,
    last: int,
    time: int,
)
    requires
        back_respects_skip(back, ext, blank_id, frames),
        0 <= last < ext.len(),
        1 <= time < frames,
    ensures
        ({
            let a = state_at(back, ext.len() as int, frames, last, time - 1);
            let b = state_at(back, ext.len() as int, frames, last, time);
            &&& a <= b
            &&& b - a <= 1 || (b - a == 2 && skip_ok(ext, b, blank_id))
        }),
{
    let w = ext.len() as int;
    lemma_state_in_range(back, w, frames, last, time);
    let b = state_at(back, w, frames, last, time);
    let c = back[time * w + b];
    assert(state_at(back, w, frames, last, time - 1) == step_back(c, b));
}

// ───────────── token spans ─────────────

/// First frame whose state is `v`.
pub open spec fn first_frame(states: Seq<usize>, v: int) -> Option<int>
    decreases states.len(),
{
    if states.len() == 0 {
        None
    } else {
        match first_frame(states.drop_last(), v) {
            Some(f) => Some(f),
            None => if states.last() == v {
                Some(states.len() - 1)
            } else {
                None
            },
        }
    }
}

/// Last frame whose state is `v`.
pub open spec fn last_frame(states: Seq<usize>, v: int) -> Option<int>
    decreases states.len(),
{
    if states.len() == 0 {
        None
    } else if states.last() == v {
        Some(states.len() - 1)
    } else {
        last_frame(states.drop_last(), v)
    }
}

/// Span of target token `k`: the frames whose state emits it (state
/// `2k + 1`); a token that never appears gets the empty span at the previous
/// token's end (0 for the first).
pub open spec fn token_span(states: Seq<usize>, k: int) -> (int, int)
    decreases k,
{
    match first_frame(states, 2 * k + 1) {
        Some(f) => (f, last_frame(states, 2 * k + 1)->0),
        None => {
            let prev_end = if k <= 0 {
                0
            } else {
                token_span(states, k - 1).1
            };
            (prev_end, prev_end)
        },
    }
}

proof fn lemma_first_last_frames(states: Seq<usize>, v: int)
    ensures
        first_frame(states, v) is Some <==> exists|i: int| 0 <= i < states.len() && states[i] == v,
        first_frame(states, v) is Some <==> last_frame(states, v) is Some,
        first_frame(states, v) matches Some(f) ==> {
            &&& 0 <= f < states.len()
            &&& states[f] == v
            &&& forall|i: int| 0 <= i < f ==> states[i] != v
        },
        last_frame(states, v) matches Some(l) ==> {
            &&& 0 <= l < states.len()
            &&& states[l] == v
            &&& forall|i: int| l < i < states.len() ==> states[i] != v
        },
        first_frame(states, v) matches Some(f) ==> f <= last_frame(states, v)->0,
    decreases states.len(),
{
    if states.len() > 0 {
        let d = states.drop_last();
        lemma_first_last_frames(d, v);
        if first_frame(d, v) is None && states.last() != v {
            assert forall|i: int| 0 <= i < states.len() implies states[i] != v by {
                if i < d.len() {
                    assert(states[i] == d[i]);
                    if states[i] == v {
                        assert(exists|j: int| 0 <= j < d.len() && d[j] == v);
                    }
                }
            }
        }
        if first_frame(d, v) is Some {
            let f = first_frame(d, v)->0;
            assert(states[f] == d[f]);
            assert forall|i: int| 0 <= i < f implies states[i] != v by {
                assert(states[i] == d[i]);
            }
        } else if states.last() == v {
            assert forall|i: int| 0 <= i < states.len() - 1 implies states[i] != v by {
                assert(states[i] == d[i]);
                if states[i] == v {
                    assert(exists|j: int| 0 <= j < d.len() && d[j] == v);
                }
            }
        }
        if states.last() != v && last_frame(d, v) is Some {
            let l = last_frame(d, v)->0;
            assert(states[l] == d[l]);
            assert forall|i: int| l < i < states.len() implies states[i] != v by {
                if i < d.len() {
                    assert(states[i] == d[i]);
                }
            }
        }
    }
}

/// Per-target-token frame spans from the per-frame states of the best path.
pub fn states_to_token_spans(states: &[usize], n: usize) -> (r: Vec<TokenSpan>)
    requires
        forall|i: int| 0 <= i < states@.len() && #[trigger] states@[i] % 2 == 1 ==> states@[i] / 2 < n,
    ensures
        r@.len() == n,
        forall|k: int|
            0 <= k < n ==> (#[trigger] r@[k]).start == token_span(states@, k).0 && r@[k].end
                == token_span(states@, k).1,
{
    let mut spans: Vec<Option<TokenSpan>> = Vec::new();
    let mut k: usize = 0;
    while k < n
        invariant
            k <= n,
            spans@.len() == k,
            forall|i: int| 0 <= i < k ==> (#[trigger] spans@[i]) is None,
        decreases n - k,
    {
        spans.push(None);
        k += 1;
    }
    let mut time: usize = 0;
    while time < states.len()
        invariant
            time <= states@.len(),
            spans@.len() == n,
            forall|i: int|
                0 <= i < states@.len() && #[trigger] states@[i] % 2 == 1 ==> states@[i] / 2 < n,
            forall|j: int|
                0 <= j < n ==> match #[trigger] spans@[j] {
                    Some(sp) => first_frame(states@.take(time as int), 2 * j + 1) == Some(
                        sp.start as int,
                    ) && last_frame(states@.take(time as int), 2 * j + 1) == Some(sp.end as int),
                    None => first_frame(states@.take(time as int), 2 * j + 1) is None,
                },
        decreases states@.len() - time,
    {
        let state = states[time];
        let ghost pre = states@.take(time as int);
        let ghost post = states@.take(time + 1);
        proof {
            assert(post.drop_last() =~= pre);
            assert(post.last() == state);
        }
        if state % 2 == 1 {
            let token_idx = state / 2;
            let cur = spans[token_idx];
            match cur {
                None => {
                    spans.set(token_idx, Some(TokenSpan { start: time, end: time }));
                },
                Some(sp) => {
                    spans.set(token_idx, Some(TokenSpan { start: sp.start, end: time }));
                },
            }
        }
        proof {
            assert forall|j: int| 0 <= j < n implies match #[trigger] spans@[j] {
                Some(sp) => first_frame(post, 2 * j + 1) == Some(sp.start as int) && last_frame(
                    post,
                    2 * j + 1,
                ) == Some(sp.end as int),
                None => first_frame(post, 2 * j + 1) is None,
            } by {
                if state != 2 * j + 1 {
                    assert(first_frame(post, 2 * j + 1) == first_frame(pre, 2 * j + 1));
                    assert(last_frame(post, 2 * j + 1) == last_frame(pre, 2 * j + 1));
                }
            }
        }
        time += 1;
    }
    proof {
        assert(states@.take(states@.len() as int) =~= states@);
    }
    let mut out: Vec<TokenSpan> = Vec::new();
    let mut last_end: usize = 0;
    let mut k: usize = 0;
    while k < n
        invariant
            k <= n,
            spans@.len() == n,
            out@.len() == k,
            forall|j: int|
                0 <= j < n ==> match #[trigger] spans@[j] {
                    Some(sp) => first_frame(states@, 2 * j + 1) == Some(sp.start as int)
                        && last_frame(states@, 2 * j + 1) == Some(sp.end as int),
                    None => first_frame(states@, 2 * j + 1) is None,
                },
            forall|j: int|
                0 <= j < k ==> (#[trigger] out@[j]).start == token_span(states@, j).0 && out@[j].end
                    == token_span(states@, j).1,
            last_end == (if k == 0 {
                0
            } else {
                token_span(states@, k - 1).1
            }),
        decreases n - k,
    {
        let sp = spans[k];
        let span = match sp {
            Some(s) => s,
            None => TokenSpan { start: last_end, end: last_end },
        };
        last_end = span.end;
        out.push(span);
        k += 1;
    }
    out
}

// ───────────── words ─────────────

pub open spec fn min_start(s: Seq<TokenSpan>) -> Option<usize>
    decreases s.len(),
{
    if s.len() == 0 {
        None
    } else {
        match min_start(s.drop_last()) {
            Some(m) => Some(
                if s.last().start < m {
                    s.last().start
                } else {
                    m
                },
            ),
            None => Some(s.last().start),
        }
    }
}

pub open spec fn max_end(s: Seq<TokenSpan>) -> Option<usize>
    decreases s.len(),
{
    if s.len() == 0 {
        None
    } else {
        match max_end(s.drop_last()) {
            Some(m) => Some(
                if s.last().end > m {
                    s.last().end
                } else {
                    m
                },
            ),
            None => Some(s.last().end),
        }
    }
}

/// Span of a word: from the earliest start to the latest end of its tokens'
/// spans (`0..=0` for a word without tokens).
pub open spec fn word_span(s: Seq<TokenSpan>) -> TokenSpan {
    let start = match min_start(s) {
        Some(m) => m,
        None => 0,
    };
    TokenSpan {
        start,
        end: match max_end(s) {
            Some(m) => m,
            None => start,
        },
    }
}

pub fn aggregate_word_span(spans: &[TokenSpan], range: &std::ops::Range<usize>) -> (r: TokenSpan)
    requires
        range.start <= range.end <= spans@.len(),
    ensures
        r == word_span(spans@.subrange(range.start as int, range.end as int)),
{
    let ghost s = spans@.subrange(range.start as int, range.end as int);
    let mut start: Option<usize> = None;
    let mut end: Option<usize> = None;
    let mut i: usize = range.start;
    while i < range.end
        invariant
            range.start <= i <= range.end <= spans@.len(),
            s == spans@.subrange(range.start as int, range.end as int),
            start == min_start(s.take(i - range.start)),
            end == max_end(s.take(i - range.start)),
        decreases range.end - i,
    {
        let sp = spans[i];
        proof {
            assert(s.take(i + 1 - range.start).drop_last() =~= s.take(i - range.start));
            assert(s.take(i + 1 - range.start).last() == sp);
        }
        start = match start {
            Some(m) => Some(
                if sp.start < m {
                    sp.start
                } else {
                    m
                },
            ),
            None => Some(sp.start),
        };
        end = match end {
            Some(m) => Some(
                if sp.end > m {
                    sp.end
                } else {
                    m
                },
            ),
            None => Some(sp.end),
        };
        i += 1;
    }
    proof {
        assert(s.take(s.len() as int) =~= s);
    }
    let st = match start {
        Some(m) => m,
        None => 0,
    };
    let en = match end {
        Some(m) => m,
        None => st,
    };
    TokenSpan { start: st, end: en }
}

proof fn lemma_min_max(s: Seq<TokenSpan>)
    ensures
        s.len() == 0 ==> min_start(s) is None && max_end(s) is None,
        s.len() > 0 ==> min_start(s) is Some && max_end(s) is Some,
        s.len() > 0 ==> forall|k: int| 0 <= k < s.len() ==> min_start(s)->0 <= (#[trigger] s[k]).start
            && s[k].end <= max_end(s)->0,
        s.len() > 0 ==> exists|k: int| 0 <= k < s.len() && (#[trigger] s[k]).start == min_start(s)->0,
        s.len() > 0 ==> exists|k: int| 0 <= k < s.len() && (#[trigger] s[k]).end == max_end(s)->0,
    decreases s.len(),
{
    if s.len() > 0 {
        let d = s.drop_last();
        lemma_min_max(d);
        assert(s.last() == s[s.len() - 1]);
        assert forall|k: int| 0 <= k < s.len() implies min_start(s)->0 <= (#[trigger] s[k]).start
            && s[k].end <= max_end(s)->0 by {
            if k < s.len() - 1 {
                assert(s[k] == d[k]);
            }
        }
        if d.len() > 0 {
            let a = choose|k: int| 0 <= k < d.len() && (#[trigger] d[k]).start == min_start(d)->0;
            let b = choose|k: int| 0 <= k < d.len() && (#[trigger] d[k]).end == max_end(d)->0;
            assert(s[a] == d[a]);
            assert(s[b] == d[b]);
        }
    }
}

/// A word's span is the hull of its tokens' spans: for a non-empty token
/// range it starts at the earliest token start and ends at the latest token
/// end, so every token span lies inside it and both ends are attained by
/// some token; a word without tokens gets `0..=0`.
pub proof fn law_word_span_is_hull(spans: Seq<TokenSpan>, a: int, b: int)
    requires
        0 <= a <= b <= spans.len(),
    ensures
        a == b ==> word_span(spans.subrange(a, b)) == (TokenSpan { start: 0, end: 0 }),
        a < b ==> forall|k: int|
            a <= k < b ==> word_span(spans.subrange(a, b)).start <= (#[trigger] spans[k]).start
                && spans[k].end <= word_span(spans.subrange(a, b)).end,
        a < b ==> exists|k: int| a <= k < b && (#[trigger] spans[k]).start == word_span(spans.subrange(a, b)).start,
        a < b ==> exists|k: int| a <= k < b && (#[trigger] spans[k]).end == word_span(spans.subrange(a, b)).end,
{
    let s = spans.subrange(a, b);
    lemma_min_max(s);
    if a < b {
        assert forall|k: int| a <= k < b implies word_span(s).start <= (#[trigger] spans[k]).start
            && spans[k].end <= word_span(s).end by {
            assert(s[k - a] == spans[k]);
        }
        let i = choose|k: int| 0 <= k < s.len() && (#[trigger] s[k]).start == min_start(s)->0;
        let j = choose|k: int| 0 <= k < s.len() && (#[trigger] s[k]).end == max_end(s)->0;
        assert(s[i] == spans[a + i]);
        assert(s[j] == spans[a + j]);
    }
}

// ───────────── laws ─────────────

pub open spec fn nondecreasing(states: Seq<usize>) -> bool {
    forall|i: int, j: int| 0 <= i <= j < states.len() ==> #[trigger] states[i] <= #[trigger] states[j]
}

/// A token's span ends at frame 0 or at a frame whose state is at most the
/// token's own.
proof fn lemma_span_end_state(states: Seq<usize>, k: int)
    requires
        k >= 0,
    ensures
        token_span(states, k).1 == 0 || ({
            let e = token_span(states, k).1;
            0 <= e < states.len() && states[e] <= 2 * k + 1
        }),
    decreases k,
{
    lemma_first_last_frames(states, 2 * k + 1);
    if first_frame(states, 2 * k + 1) is None && k > 0 {
        lemma_span_end_state(states, k - 1);
    }
}

/// On a path whose states never go back, every token's span is ordered and
/// no span starts before the previous token's span ends.
pub proof fn law_token_spans_ordered(states: Seq<usize>, n: int)
    requires
        nondecreasing(states),
    ensures
        forall|k: int| 0 <= k < n ==> #[trigger] token_span(states, k).0 <= token_span(states, k).1,
        forall|k: int|
            0 <= k && k + 1 < n ==> #[trigger] token_span(states, k).1 <= token_span(states, k + 1).0,
{
    assert forall|k: int| 0 <= k < n implies #[trigger] token_span(states, k).0 <= token_span(
        states,
        k,
    ).1 by {
        lemma_first_last_frames(states, 2 * k + 1);
    }
    assert forall|k: int| 0 <= k && k + 1 < n implies #[trigger] token_span(states, k).1
        <= token_span(states, k + 1).0 by {
        lemma_first_last_frames(states, 2 * k + 3);
        lemma_span_end_state(states, k);
        if first_frame(states, 2 * (k + 1) + 1) is Some {
            let f = first_frame(states, 2 * (k + 1) + 1)->0;
            let e = token_span(states, k).1;
            if e != 0 && f < e {
                assert(states[f] <= states[e]);
            }
        }
    }
}

} // verus!
