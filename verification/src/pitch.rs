//! Which word of the song is being sung at a given moment.
use vstd::prelude::*;

verus! {

/// Word starts never go back (the aligner makes them monotonic).
pub open spec fn starts_sorted(bounds: Seq<(u64, u64)>) -> bool {
    forall|i: int, j: int| 0 <= i <= j < bounds.len() ==> (#[trigger] bounds[i]).0 <= (#[trigger] bounds[j]).0
}

/// How many words have started by `elapsed_ms`.
pub open spec fn started(bounds: Seq<(u64, u64)>, elapsed_ms: u64) -> int
    decreases bounds.len(),
{
    if bounds.len() == 0 {
        0
    } else if bounds.last().0 <= elapsed_ms {
        bounds.len() as int
    } else {
        started(bounds.drop_last(), elapsed_ms)
    }
}

/// The last word started by `elapsed_ms`, while it lasts (`[start, end)`).
pub open spec fn current_word_spec(bounds: Seq<(u64, u64)>, elapsed_ms: u64) -> Option<int> {
    let k = started(bounds, elapsed_ms);
    if k == 0 {
        None
    } else if elapsed_ms >= bounds[k - 1].1 {
        None
    } else {
        Some(k - 1)
    }
}

proof fn lemma_started_split(bounds: Seq<(u64, u64)>, elapsed_ms: u64, m: int)
    requires
        starts_sorted(bounds),
        0 <= m <= bounds.len(),
        forall|i: int| 0 <= i < m ==> (#[trigger] bounds[i]).0 <= elapsed_ms,
        forall|i: int| m <= i < bounds.len() ==> (#[trigger] bounds[i]).0 > elapsed_ms,
    ensures
        started(bounds, elapsed_ms) == m,
    decreases bounds.len(),
{
    if bounds.len() > 0 && m < bounds.len() {
        let d = bounds.drop_last();
        assert forall|i: int, j: int| 0 <= i <= j < d.len() implies (#[trigger] d[i]).0 <= (
        #[trigger] d[j]).0 by {
            assert(d[i] == bounds[i] && d[j] == bounds[j]);
        }
        assert forall|i: int| 0 <= i < m implies (#[trigger] d[i]).0 <= elapsed_ms by {
            assert(d[i] == bounds[i]);
        }
        assert forall|i: int| m <= i < d.len() implies (#[trigger] d[i]).0 > elapsed_ms by {
            assert(d[i] == bounds[i]);
        }
        lemma_started_split(d, elapsed_ms, m);
    }
}

/// Index of the word being sung at `elapsed_ms`, by binary search over the
/// word starts.
pub fn current_word_index(bounds: &[(u64, u64)], elapsed_ms: u64) -> (r: Option<usize>)
    requires
        starts_sorted(bounds@),
    ensures
        match r {
            Some(i) => current_word_spec(bounds@, elapsed_ms) == Some(i as int),
            None => current_word_spec(bounds@, elapsed_ms) is None,
        },
        r matches Some(i) ==> i < bounds@.len() && bounds@[i as int].0 <= elapsed_ms < bounds@[i as int].1,
{
    let mut lo: usize = 0;
    let mut hi: usize = bounds.len();
    while lo < hi
        invariant
            lo <= hi <= bounds@.len(),
            starts_sorted(bounds@),
            forall|i: int| 0 <= i < lo ==> (#[trigger] bounds@[i]).0 <= elapsed_ms,
            forall|i: int| hi <= i < bounds@.len() ==> (#[trigger] bounds@[i]).0 > elapsed_ms,
        decreases hi - lo,
    {
        let mid = lo + (hi - lo) / 2;
        if bounds[mid].0 <= elapsed_ms {
            assert forall|i: int| 0 <= i <= mid implies (#[trigger] bounds@[i]).0 <= elapsed_ms by {
                assert(bounds@[i].0 <= bounds@[mid as int].0);
            }
            lo = mid + 1;
        } else {
            assert forall|i: int| mid <= i < bounds@.len() implies (#[trigger] bounds@[i]).0 > elapsed_ms by {
                assert(bounds@[mid as int].0 <= bounds@[i].0);
            }
            hi = mid;
        }
    }
    proof {
        lemma_started_split(bounds@, elapsed_ms, lo as int);
    }
    if lo == 0 {
        return None;
    }
    let idx = lo - 1;
    if elapsed_ms >= bounds[idx].1 {
        return None;
    }
    Some(idx)
}

/// Times never go back (the contour is computed frame after frame).
pub open spec fn times_sorted(times: Seq<u64>) -> bool {
    forall|i: int, j: int| 0 <= i <= j < times.len() ==> times[i] <= times[j]
}

/// Index of the first contour point at or after `t` (binary search): every
/// point before it is earlier than `t`, every point from it on is not.
pub fn points_before(times: &[u64], t: u64) -> (r: usize)
    requires
        times_sorted(times@),
    ensures
        r <= times@.len(),
        forall|i: int| 0 <= i < r ==> #[trigger] times@[i] < t,
        forall|i: int| r <= i < times@.len() ==> #[trigger] times@[i] >= t,
{
    let mut lo: usize = 0;
    let mut hi: usize = times.len();
    while lo < hi
        invariant
            lo <= hi <= times@.len(),
            times_sorted(times@),
            forall|i: int| 0 <= i < lo ==> #[trigger] times@[i] < t,
            forall|i: int| hi <= i < times@.len() ==> #[trigger] times@[i] >= t,
        decreases hi - lo,
    {
        let mid = lo + (hi - lo) / 2;
        if times[mid] < t {
            assert forall|i: int| 0 <= i <= mid implies #[trigger] times@[i] < t by {
                assert(times@[i] <= times@[mid as int]);
            }
            lo = mid + 1;
        } else {
            assert forall|i: int| mid <= i < times@.len() implies #[trigger] times@[i] >= t by {
                assert(times@[mid as int] <= times@[i]);
            }
            hi = mid;
        }
    }
    lo
}

/// Hop between two analysis windows of the reference contour.
pub const HOP_MS: u64 = 10;

/// Samples in one analysis window.
pub const WINDOW_SAMPLES: usize = 1024;

/// Hop in samples at `sample_rate`.
pub open spec fn hop_samples(sample_rate: u32) -> int {
    (sample_rate as int * HOP_MS as int) / 1000
}

/// Number of whole analysis windows, one every `hop` samples, in `len` samples.
pub open spec fn window_count(len: int, hop: int) -> int {
    if len < WINDOW_SAMPLES || hop <= 0 {
        0
    } else {
        (len - WINDOW_SAMPLES) / hop + 1
    }
}

/// Analysis windows of the reference contour over `len` samples: the start
/// sample of each window of `WINDOW_SAMPLES` taken every `HOP_MS`, with the
/// time (ms) it stands for. None when the audio is shorter than a window or
/// the rate gives no hop.
pub fn contour_frames(len: usize, sample_rate: u32) -> (r: Vec<(usize, u64)>)
    requires
        len * 1000 <= u64::MAX,
    ensures
        r@.len() == window_count(len as int, hop_samples(sample_rate)),
        forall|k: int|
            0 <= k < r@.len() ==> (#[trigger] r@[k]).0 == k * hop_samples(sample_rate) && r@[k].1 == (k
                * hop_samples(sample_rate) * 1000) / (sample_rate as int),
{
    let hop = (sample_rate as u64 * HOP_MS / 1000) as usize;
    let ghost h = hop_samples(sample_rate);
    assert(hop == h);
    let mut out: Vec<(usize, u64)> = Vec::new();
    if len < WINDOW_SAMPLES || hop == 0 {
        return out;
    }
    assert(sample_rate > 0) by {
        if sample_rate == 0 {
            assert(h == 0);
        }
    }
    let count = (len - WINDOW_SAMPLES) / hop + 1;
    let mut k: usize = 0;
    while k < count
        invariant
            hop == h > 0,
            sample_rate > 0,
            len >= WINDOW_SAMPLES,
            len * 1000 <= u64::MAX,
            count == (len - WINDOW_SAMPLES) / h + 1,
            k <= count,
            out@.len() == k,
            forall|j: int|
                0 <= j < k ==> (#[trigger] out@[j]).0 == j * h && out@[j].1 == (j * h * 1000) / (
                sample_rate as int),
        decreases count - k,
    {
        assert(k * h <= len - WINDOW_SAMPLES) by (nonlinear_arith)
            requires
                k < count,
                count == (len - WINDOW_SAMPLES) / h + 1,
                h > 0,
                len >= WINDOW_SAMPLES,
        ;
        let pos = k * hop;
        let time_ms = (pos as u64 * 1000) / sample_rate as u64;
        out.push((pos, time_ms));
        k += 1;
    }
    out
}

} // verus!
