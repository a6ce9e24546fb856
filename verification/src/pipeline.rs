//! Pipeline stages, and the sung range of a vocal track read from its loud
//! windows.
use vstd::prelude::*;

use crate::recognizer::SongInfo;

verus! {

#[derive(Debug, Clone, Copy, PartialEq, Eq, Structural)]
pub enum Stage {
    Decoding,
    SeparatingStems,
    DetectingVoice,
    Aligning,
    BuildingTimeline,
    Done,
}

/// Windows on each side of a window that vote in the majority filter.
pub const HALF_WINDOW: usize = 2;

/// Votes a window needs (a majority of five).
pub const MAJORITY: usize = 3;

pub open spec fn count_true(s: Seq<bool>) -> nat
    decreases s.len(),
{
    if s.len() == 0 {
        0
    } else {
        count_true(s.drop_last()) + if s.last() {
            1nat
        } else {
            0nat
        }
    }
}

/// Window `i` counts as sung when most of the five windows around it (fewer
/// at the edges) are loud.
pub open spec fn smoothed_at(loud: Seq<bool>, i: int) -> bool {
    let lo = if i >= HALF_WINDOW {
        i - HALF_WINDOW
    } else {
        0
    };
    let hi = if i + HALF_WINDOW + 1 <= loud.len() {
        i + HALF_WINDOW + 1
    } else {
        loud.len() as int
    };
    count_true(loud.subrange(lo, hi)) >= MAJORITY
}

/// First sung window, 0 when there is none.
pub open spec fn first_sung(loud: Seq<bool>) -> int {
    if exists|i: int| 0 <= i < loud.len() && smoothed_at(loud, i) {
        choose|i: int|
            0 <= i < loud.len() && smoothed_at(loud, i) && forall|j: int|
                0 <= j < i ==> !smoothed_at(loud, j)
    } else {
        0
    }
}

/// Last sung window, the last window when there is none.
pub open spec fn last_sung(loud: Seq<bool>) -> int {
    if exists|i: int| 0 <= i < loud.len() && smoothed_at(loud, i) {
        choose|i: int|
            0 <= i < loud.len() && smoothed_at(loud, i) && forall|j: int|
                i < j < loud.len() ==> !smoothed_at(loud, j)
    } else {
        loud.len() - 1
    }
}

fn count_loud(loud: &[bool], lo: usize, hi: usize) -> (r: usize)
    requires
        lo <= hi <= loud@.len(),
    ensures
        r == count_true(loud@.subrange(lo as int, hi as int)),
{
    let mut n: usize = 0;
    let mut k: usize = lo;
    while k < hi
        invariant
            lo <= k <= hi <= loud@.len(),
            n == count_true(loud@.subrange(lo as int, k as int)),
            n <= k - lo,
        decreases hi - k,
    {
        assert(loud@.subrange(lo as int, k + 1).drop_last() =~= loud@.subrange(lo as int, k as int));
        if loud[k] {
            n += 1;
        }
        k += 1;
    }
    n
}

/// The windows the majority filter keeps as sung.
pub fn smoothed_windows(loud: &[bool]) -> (r: Vec<bool>)
    ensures
        r@.len() == loud@.len(),
        forall|i: int| 0 <= i < loud@.len() ==> #[trigger] r@[i] == smoothed_at(loud@, i),
{
    let n = loud.len();
    let mut out: Vec<bool> = Vec::new();
    let mut i: usize = 0;
    while i < n
        invariant
            i <= n == loud@.len(),
            out@.len() == i,
            forall|j: int| 0 <= j < i ==> #[trigger] out@[j] == smoothed_at(loud@, j),
        decreases n - i,
    {
        let lo = if i >= HALF_WINDOW {
            i - HALF_WINDOW
        } else {
            0
        };
        let hi = if n - i > HALF_WINDOW {
            i + HALF_WINDOW + 1
        } else {
            n
        };
        let c = count_loud(loud, lo, hi);
        out.push(c >= MAJORITY);
        i += 1;
    }
    out
}

/// First and last sung window of a track split into `loud` windows (a window
/// is loud above the track's threshold): 0 and the last window when nothing
/// is sung.
pub fn sung_window_bounds(loud: &[bool]) -> (r: (usize, usize))
    requires
        loud@.len() > 0,
    ensures
        r.0 == first_sung(loud@),
        r.1 == last_sung(loud@),
        r.0 <= r.1 < loud@.len(),
{
    let smoothed = smoothed_windows(loud);
    let n = smoothed.len();
    let mut first: usize = 0;
    let mut found = false;
    while first < n && !smoothed[first]
        invariant
            first <= n == loud@.len() == smoothed@.len(),
            forall|j: int| 0 <= j < loud@.len() ==> #[trigger] smoothed@[j] == smoothed_at(loud@, j),
            forall|j: int| 0 <= j < first ==> !smoothed_at(loud@, j),
        decreases n - first,
    {
        first += 1;
    }
    let mut last: usize = n;
    while last > 0 && !smoothed[last - 1]
        invariant
            last <= n == loud@.len() == smoothed@.len(),
            forall|j: int| 0 <= j < loud@.len() ==> #[trigger] smoothed@[j] == smoothed_at(loud@, j),
            forall|j: int| last <= j < n ==> !smoothed_at(loud@, j),
        decreases last,
    {
        last -= 1;
    }
    if first < n {
        assert(smoothed_at(loud@, first as int));
        assert(last > 0) by {
            if last == 0 {
                assert(!smoothed_at(loud@, first as int));
            }
        }
        let l = last - 1;
        assert(smoothed_at(loud@, l as int));
        proof {
            let f = first_sung(loud@);
            assert(0 <= f < loud@.len() && smoothed_at(loud@, f));
            if f < first {
                assert(!smoothed_at(loud@, f));
            }
            if f > first {
            }
            let g = last_sung(loud@);
            assert(0 <= g < loud@.len() && smoothed_at(loud@, g));
        }
        (first, l)
    } else {
        assert(!exists|i: int| 0 <= i < loud@.len() && smoothed_at(loud@, i));
        (0, n - 1)
    }
}

// ───────────── song identity and stored lyrics ─────────────

/// Title and artist the song is stored under: those recognized from the
/// audio when recognition succeeded, else the video's.
pub fn song_identity(recognized: Option<SongInfo>, video_title: String, video_artist: String) -> (r: (
    String,
    String,
))
    ensures
        match recognized {
            Some(info) => r == (info.title, info.artist),
            None => r == (video_title, video_artist),
        },
{
    match recognized {
        Some(info) => (info.title, info.artist),
        None => (video_title, video_artist),
    }
}

/// The lyrics kept in a song's metadata.
#[derive(Debug, Clone)]
pub enum StoredLyrics {
    /// Synced LRC generated from the word timings (flagged as generated).
    Generated(String),
    /// The lyrics text as fetched.
    Fetched(String),
    /// No lyrics: any stored ones are removed.
    Removed,
}

/// The generated LRC when there is one, otherwise the fetched text.
pub fn lyrics_to_store(fetched: Option<String>, generated: Option<String>) -> (r: StoredLyrics)
    ensures
        match (generated, fetched) {
            (Some(g), _) => r == StoredLyrics::Generated(g),
            (None, Some(f)) => r == StoredLyrics::Fetched(f),
            (None, None) => r == StoredLyrics::Removed,
        },
{
    match (generated, fetched) {
        (Some(g), _) => StoredLyrics::Generated(g),
        (None, Some(f)) => StoredLyrics::Fetched(f),
        (None, None) => StoredLyrics::Removed,
    }
}

} // verus!
