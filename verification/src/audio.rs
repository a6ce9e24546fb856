//! Sample bookkeeping of audio processing: which frames of a track an
//! excerpt keeps, which samples of each decoded packet fall inside it, how a
//! buffer is cut into chunks, and the audio files of a song folder.
use vstd::prelude::*;

verus! {

pub open spec fn min_int(a: int, b: int) -> int {
    if a <= b {
        a
    } else {
        b
    }
}

pub open spec fn max_int(a: int, b: int) -> int {
    if a >= b {
        a
    } else {
        b
    }
}

/// Frames `[start, end)` of an excerpt of `want` frames centred on the middle
/// of a `total`-frame track (the whole track when it is shorter).
pub fn middle_window(total: usize, want: usize) -> (r: (usize, usize))
    ensures
        r.0 == total / 2 - min_int(want as int, total as int) / 2,
        r.1 == r.0 + min_int(want as int, total as int),
        r.1 <= total,
{
    let w = if want < total {
        want
    } else {
        total
    };
    let start = total / 2 - w / 2;
    (start, start + w)
}

/// The samples of a decoded packet to keep: the packet holds frames
/// `[packet_start, packet_end)` of `channels` interleaved samples each, and
/// the frames inside `[window.0, window.1)` are kept; `None` when none is.
/// The range is given in samples from the start of the packet.
pub fn packet_slice(window: (usize, usize), packet_start: usize, packet_end: usize, channels: usize) -> (r:
    Option<(usize, usize)>)
    requires
        packet_start <= packet_end,
        (packet_end - packet_start) * channels <= usize::MAX,
    ensures
        ({
            let lo = max_int(window.0 as int, packet_start as int);
            let hi = min_int(window.1 as int, packet_end as int);
            match r {
                Some(s) => lo < hi && s.0 == (lo - packet_start) * channels && s.1 == (hi - packet_start)
                    * channels,
                None => lo >= hi,
            }
        }),
{
    let lo = if window.0 > packet_start {
        window.0
    } else {
        packet_start
    };
    let hi = if window.1 < packet_end {
        window.1
    } else {
        packet_end
    };
    if lo < hi {
        assert((lo - packet_start) * channels <= (hi - packet_start) * channels) by (nonlinear_arith)
            requires
                packet_start <= lo < hi,
        ;
        assert((hi - packet_start) * channels <= (packet_end - packet_start) * channels) by (nonlinear_arith)
            requires
                packet_start <= hi <= packet_end,
        ;
        Some(((lo - packet_start) * channels, (hi - packet_start) * channels))
    } else {
        None
    }
}

pub open spec fn name_views(v: Seq<&'static str>) -> Seq<Seq<char>> {
    v.map_values(|s: &'static str| s@)
}

/// Audio files looked for in a song folder, in order: the instrumental (MP3,
/// then WAV) when it is preferred, then the original (MP3, M4A, WAV).
pub open spec fn audio_candidates_spec(prefer_instrumental: bool) -> Seq<Seq<char>> {
    let original = seq!["original.mp3"@, "original.m4a"@, "original.wav"@];
    if prefer_instrumental {
        seq!["instrumental.mp3"@, "instrumental.wav"@] + original
    } else {
        original
    }
}

pub fn audio_file_candidates(prefer_instrumental: bool) -> (r: Vec<&'static str>)
    ensures
        name_views(r@) == audio_candidates_spec(prefer_instrumental),
{
    let mut v: Vec<&'static str> = Vec::new();
    if prefer_instrumental {
        v.push("instrumental.mp3");
        v.push("instrumental.wav");
    }
    v.push("original.mp3");
    v.push("original.m4a");
    v.push("original.wav");
    assert(name_views(v@) =~= audio_candidates_spec(prefer_instrumental));
    v
}

// ───────────── chunking ─────────────

/// Chunks from `start`: `[start, start + chunk_len)` clipped to `n`, one every
/// `hop_len` samples, until a chunk reaches the end or a start passes it.
pub open spec fn ranges_from(start: int, n: int, chunk_len: int, hop_len: int) -> Seq<(int, int)>
    decreases (if start < n {
        n - start
    } else {
        0
    }),
{
    if start >= n || hop_len <= 0 {
        seq![]
    } else if start + chunk_len >= n {
        seq![(start, n)]
    } else {
        seq![(start, start + chunk_len)] + ranges_from(start + hop_len, n, chunk_len, hop_len)
    }
}

/// The sample ranges of the overlapping chunks of an `n`-sample buffer: the
/// whole buffer when it fits in one chunk, else `ranges_from(0, ..)` (the
/// caller pads the last chunk to `chunk_len`).
pub open spec fn chunk_ranges_spec(n: int, chunk_len: int, hop_len: int) -> Seq<(int, int)> {
    if n <= chunk_len {
        seq![(0, n)]
    } else {
        ranges_from(0, n, chunk_len, hop_len)
    }
}

pub open spec fn range_views(v: Seq<(usize, usize)>) -> Seq<(int, int)> {
    v.map_values(|p: (usize, usize)| (p.0 as int, p.1 as int))
}

/// Sample ranges `[start, end)` of the chunks of an `n`-sample buffer cut
/// into chunks of `chunk_len` samples, a new one every `hop_len` samples.
pub fn chunk_ranges(n: usize, chunk_len: usize, hop_len: usize) -> (r: Vec<(usize, usize)>)
    requires
        n > chunk_len ==> hop_len > 0,
        n + chunk_len <= usize::MAX,
        n + hop_len <= usize::MAX,
    ensures
        range_views(r@) == chunk_ranges_spec(n as int, chunk_len as int, hop_len as int),
{
    if n <= chunk_len {
        let r = vec![(0usize, n)];
        assert(range_views(r@) =~= seq![(0int, n as int)]);
        return r;
    }
    let ghost whole = ranges_from(0, n as int, chunk_len as int, hop_len as int);
    let mut out: Vec<(usize, usize)> = Vec::new();
    let mut start: usize = 0;
    let mut done = false;
    while !done && start < n
        invariant
            n > chunk_len,
            hop_len > 0,
            n + chunk_len <= usize::MAX,
            n + hop_len <= usize::MAX,
            start <= n + hop_len,
            whole == range_views(out@) + (if done {
                Seq::<(int, int)>::empty()
            } else {
                ranges_from(start as int, n as int, chunk_len as int, hop_len as int)
            }),
        decreases (if done {
            0
        } else {
            n + hop_len - start + 1
        }),
    {
        let ghost before = out@;
        let end = if start + chunk_len < n {
            start + chunk_len
        } else {
            n
        };
        out.push((start, end));
        assert(range_views(out@) =~= range_views(before).push((start as int, end as int)));
        if end == n {
            done = true;
            assert(whole =~= range_views(out@));
        } else {
            let ghost rest = ranges_from((start + hop_len) as int, n as int, chunk_len as int, hop_len as int);
            assert(ranges_from(start as int, n as int, chunk_len as int, hop_len as int) == seq![(
                start as int,
                end as int,
            )] + rest);
            assert(whole =~= range_views(out@) + rest);
            start = start + hop_len;
        }
    }
    proof {
        if !done {
            assert(ranges_from(start as int, n as int, chunk_len as int, hop_len as int) =~= Seq::<
                (int, int),
            >::empty());
            assert(whole =~= range_views(out@));
        }
    }
    out
}

/// Sample `s` lies in one of the chunks `r`.
pub open spec fn in_some_chunk(r: Seq<(int, int)>, s: int) -> bool {
    exists|k: int| 0 <= k < r.len() && (#[trigger] r[k]).0 <= s < r[k].1
}

proof fn lemma_ranges_from_cover(start: int, n: int, c: int, h: int)
    requires
        0 <= start < n,
        0 < h <= c,
    ensures
        ({
            let r = ranges_from(start, n, c, h);
            &&& r.len() > 0
            &&& r[0].0 == start
            &&& r.last().1 == n
            &&& forall|k: int| 0 <= k < r.len() ==> (#[trigger] r[k]).0 < r[k].1 <= r[k].0 + c
            &&& forall|k: int| 0 < k < r.len() ==> (#[trigger] r[k]).0 == r[k - 1].0 + h
            &&& forall|s: int| start <= s < n ==> #[trigger] in_some_chunk(r, s)
        }),
    decreases n - start,
{
    let r = ranges_from(start, n, c, h);
    if start + c >= n {
        assert forall|s: int| start <= s < n implies #[trigger] in_some_chunk(r, s) by {
            assert(r[0].0 <= s < r[0].1);
        }
    } else {
        let rest = ranges_from(start + h, n, c, h);
        lemma_ranges_from_cover(start + h, n, c, h);
        assert(r == seq![(start, start + c)] + rest);
        assert forall|k: int| 0 < k < r.len() implies (#[trigger] r[k]).0 == r[k - 1].0 + h by {
            assert(r[k] == rest[k - 1]);
            if k > 1 {
                assert(r[k - 1] == rest[k - 2]);
            }
        }
        assert forall|k: int| 0 <= k < r.len() implies (#[trigger] r[k]).0 < r[k].1 <= r[k].0 + c by {
            if k > 0 {
                assert(r[k] == rest[k - 1]);
            }
        }
        assert forall|s: int| start <= s < n implies #[trigger] in_some_chunk(r, s) by {
            if s < start + c {
                assert(r[0].0 <= s < r[0].1);
            } else {
                assert(in_some_chunk(rest, s));
                let k = choose|k: int| 0 <= k < rest.len() && (#[trigger] rest[k]).0 <= s < rest[k].1;
                assert(r[k + 1] == rest[k]);
            }
        }
    }
}

/// Overlapping chunks cover the whole buffer: the first starts at 0, the last
/// ends at `n`, every chunk is non-empty (but for an empty buffer) and at most
/// `chunk_len` long, each starts `hop_len` after the previous one, and every
/// sample lies in some chunk.
pub proof fn law_chunks_cover_buffer(n: int, chunk_len: int, hop_len: int)
    requires
        0 <= n,
        0 < hop_len <= chunk_len,
    ensures
        ({
            let r = chunk_ranges_spec(n, chunk_len, hop_len);
            &&& r.len() > 0
            &&& r[0].0 == 0
            &&& r.last().1 == n
            &&& forall|k: int| 0 <= k < r.len() ==> (#[trigger] r[k]).0 <= r[k].1 <= r[k].0 + chunk_len
            &&& n > 0 ==> forall|k: int| 0 <= k < r.len() ==> (#[trigger] r[k]).0 < r[k].1
            &&& forall|k: int| 0 < k < r.len() ==> (#[trigger] r[k]).0 == r[k - 1].0 + hop_len
            &&& forall|s: int| 0 <= s < n ==> #[trigger] in_some_chunk(r, s)
        }),
{
    let r = chunk_ranges_spec(n, chunk_len, hop_len);
    if n <= chunk_len {
        assert forall|s: int| 0 <= s < n implies #[trigger] in_some_chunk(r, s) by {
            assert(r[0].0 <= s < r[0].1);
        }
    } else {
        lemma_ranges_from_cover(0, n, chunk_len, hop_len);
    }
}

} // verus!
