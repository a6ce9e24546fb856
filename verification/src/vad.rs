//! Voice-activity regions of a vocals track (millisecond intervals), found by
//! a hysteresis over per-frame "louder than the noise floor" decisions.
use vstd::prelude::*;

verus! {

/// Frame length in milliseconds (320 samples at 16 kHz).
pub const FRAME_MS: u64 = 20;
/// Loud frames in a row that open a region.
pub const ENTER_FRAMES: usize = 3;
/// Quiet frames in a row that close a region.
pub const EXIT_FRAMES: usize = 8;
/// Regions closer than this are merged.
pub const MERGE_GAP_MS: u64 = 250;
/// Shorter regions are dropped.
pub const MIN_REGION_MS: u64 = 150;

#[derive(Debug, Clone, Default)]
pub struct VocalIntervals {
    pub regions: Vec<(u64, u64)>,
}

pub open spec fn sat_sub(a: u64, b: u64) -> nat {
    if a >= b {
        (a - b) as nat
    } else {
        0
    }
}

/// Sum of region lengths.
pub open spec fn total_ms(rs: Seq<(u64, u64)>) -> nat
    decreases rs.len(),
{
    if rs.len() == 0 {
        0
    } else {
        total_ms(rs.drop_last()) + sat_sub(rs.last().1, rs.last().0)
    }
}

/// First voiced instant of `[start_ms, end_ms)`, scanning regions in order.
pub open spec fn first_vocal_spec(rs: Seq<(u64, u64)>, start_ms: u64, end_ms: u64) -> Option<u64>
    decreases rs.len(),
{
    if rs.len() == 0 {
        None
    } else if rs[0].1 <= start_ms {
        first_vocal_spec(rs.drop_first(), start_ms, end_ms)
    } else if rs[0].0 >= end_ms {
        None
    } else {
        Some(if rs[0].0 >= start_ms {
            rs[0].0
        } else {
            start_ms
        })
    }
}

/// Regions as produced by `detect_vocals`: non-empty, in order, and more than
/// `MERGE_GAP_MS` apart.
pub open spec fn regions_wf(rs: Seq<(u64, u64)>) -> bool {
    &&& forall|i: int| 0 <= i < rs.len() ==> (#[trigger] rs[i]).0 < rs[i].1
    &&& forall|i: int| 0 < i < rs.len() ==> (#[trigger] rs[i]).0 > rs[i - 1].1 + MERGE_GAP_MS
}

impl VocalIntervals {
    pub fn total_vocal_ms(&self) -> (r: u64)
        requires
            total_ms(self.regions@) <= u64::MAX,
        ensures
            r == total_ms(self.regions@),
    {
        let mut sum: u64 = 0;
        let mut i: usize = 0;
        while i < self.regions.len()
            invariant
                i <= self.regions@.len(),
                total_ms(self.regions@) <= u64::MAX,
                sum == total_ms(self.regions@.take(i as int)),
            decreases self.regions@.len() - i,
        {
            let (s, e) = self.regions[i];
            proof {
                assert(self.regions@.take(i + 1).drop_last() =~= self.regions@.take(i as int));
                lemma_total_prefix(self.regions@, i + 1);
            }
            let d = if e >= s {
                e - s
            } else {
                0
            };
            sum = sum + d;
            i += 1;
        }
        proof {
            assert(self.regions@.take(self.regions@.len() as int) =~= self.regions@);
        }
        sum
    }

    pub fn first_vocal_in_window(&self, start_ms: u64, end_ms: u64) -> (r: Option<u64>)
        ensures
            r == first_vocal_spec(self.regions@, start_ms, end_ms),
    {
        let mut i: usize = 0;
        proof {
            assert(self.regions@.skip(0) =~= self.regions@);
        }
        while i < self.regions.len()
            invariant
                i <= self.regions@.len(),
                first_vocal_spec(self.regions@, start_ms, end_ms) == first_vocal_spec(
                    self.regions@.skip(i as int),
                    start_ms,
                    end_ms,
                ),
            decreases self.regions@.len() - i,
        {
            let (s, e) = self.regions[i];
            proof {
                let rest = self.regions@.skip(i as int);
                assert(rest[0] == (s, e));
                assert(rest.drop_first() =~= self.regions@.skip(i + 1));
            }
            if e <= start_ms {
                i += 1;
                continue;
            }
            if s >= end_ms {
                return None;
            }
            return Some(if s >= start_ms {
                s
            } else {
                start_ms
            });
        }
        None
    }
}

proof fn lemma_total_prefix(rs: Seq<(u64, u64)>, n: int)
    requires
        0 <= n <= rs.len(),
    ensures
        total_ms(rs.take(n)) <= total_ms(rs),
    decreases rs.len() - n,
{
    if n < rs.len() {
        lemma_total_prefix(rs, n + 1);
        assert(rs.take(n + 1).drop_last() =~= rs.take(n));
    } else {
        assert(rs.take(n) =~= rs);
    }
}

/// A window answer of `first_vocal_in_window` is inside the window and inside
/// a region; no answer means no region meets the window.
pub proof fn law_first_vocal_in_window(rs: Seq<(u64, u64)>, start_ms: u64, end_ms: u64)
    requires
        regions_wf(rs),
        start_ms < end_ms,
    ensures
        first_vocal_spec(rs, start_ms, end_ms) matches Some(t) ==> start_ms <= t < end_ms && exists|k: int|
            0 <= k < rs.len() && (#[trigger] rs[k]).0 <= t < rs[k].1,
        first_vocal_spec(rs, start_ms, end_ms) is None ==> forall|k: int|
            0 <= k < rs.len() ==> (#[trigger] rs[k]).1 <= start_ms || rs[k].0 >= end_ms,
    decreases rs.len(),
{
    if rs.len() > 0 {
        let d = rs.drop_first();
        assert(regions_wf(d)) by {
            assert forall|i: int| 0 < i < d.len() implies (#[trigger] d[i]).0 > d[i - 1].1 + MERGE_GAP_MS by {
                assert(d[i] == rs[i + 1] && d[i - 1] == rs[i]);
            }
            assert forall|i: int| 0 <= i < d.len() implies (#[trigger] d[i]).0 < d[i].1 by {
                assert(d[i] == rs[i + 1]);
            }
        }
        law_first_vocal_in_window(d, start_ms, end_ms);
        assert(rs[0].0 < rs[0].1);
        if rs[0].1 <= start_ms {
            if first_vocal_spec(d, start_ms, end_ms) is Some {
                let t = first_vocal_spec(d, start_ms, end_ms)->0;
                let k = choose|k: int| 0 <= k < d.len() && (#[trigger] d[k]).0 <= t < d[k].1;
                assert(rs[k + 1] == d[k]);
            } else {
                assert forall|k: int| 0 <= k < rs.len() implies (#[trigger] rs[k]).1 <= start_ms || rs[k].0 >= end_ms by {
                    if k > 0 {
                        assert(rs[k] == d[k - 1]);
                    }
                }
            }
        } else if rs[0].0 >= end_ms {
            assert forall|k: int| 0 <= k < rs.len() implies (#[trigger] rs[k]).1 <= start_ms || rs[k].0 >= end_ms by {
                lemma_wf_increasing(rs, 0, k);
            }
        } else {
            let t = if rs[0].0 >= start_ms { rs[0].0 } else { start_ms };
            assert(rs[0].0 <= t < rs[0].1);
        }
    }
}

/// First in-window instant of a region: its start, held to the window start.
pub open spec fn entry_in_window(r: (u64, u64), start_ms: u64) -> u64 {
    if r.0 >= start_ms {
        r.0
    } else {
        start_ms
    }
}

/// The answer of `first_vocal_in_window` is the earliest voiced instant of
/// the window: every region that reaches into the window enters it no
/// earlier.
pub proof fn law_first_vocal_is_earliest(rs: Seq<(u64, u64)>, start_ms: u64, end_ms: u64)
    requires
        regions_wf(rs),
    ensures
        first_vocal_spec(rs, start_ms, end_ms) matches Some(t) ==> forall|k: int|
            0 <= k < rs.len() ==> (#[trigger] rs[k]).1 <= start_ms || entry_in_window(rs[k], start_ms) >= t,
    decreases rs.len(),
{
    if rs.len() > 0 {
        let d = rs.drop_first();
        assert(regions_wf(d)) by {
            assert forall|i: int| 0 < i < d.len() implies (#[trigger] d[i]).0 > d[i - 1].1 + MERGE_GAP_MS by {
                assert(d[i] == rs[i + 1] && d[i - 1] == rs[i]);
            }
            assert forall|i: int| 0 <= i < d.len() implies (#[trigger] d[i]).0 < d[i].1 by {
                assert(d[i] == rs[i + 1]);
            }
        }
        law_first_vocal_is_earliest(d, start_ms, end_ms);
        if rs[0].1 <= start_ms {
            if first_vocal_spec(d, start_ms, end_ms) is Some {
                let t = first_vocal_spec(d, start_ms, end_ms)->0;
                assert forall|k: int| 0 <= k < rs.len() implies (#[trigger] rs[k]).1 <= start_ms
                    || entry_in_window(rs[k], start_ms) >= t by {
                    if k > 0 {
                        assert(rs[k] == d[k - 1]);
                    }
                }
            }
        } else if rs[0].0 < end_ms {
            let t = entry_in_window(rs[0], start_ms);
            assert forall|k: int| 0 <= k < rs.len() implies (#[trigger] rs[k]).1 <= start_ms
                || entry_in_window(rs[k], start_ms) >= t by {
                if k > 0 {
                    lemma_wf_increasing(rs, 1, k);
                    assert(rs[1].0 > rs[0].1 + MERGE_GAP_MS);
                    assert(rs[0].0 < rs[0].1);
                }
            }
        }
    }
}

proof fn lemma_wf_increasing(rs: Seq<(u64, u64)>, i: int, j: int)
    requires
        regions_wf(rs),
        0 <= i <= j < rs.len(),
    ensures
        rs[i].0 <= rs[j].0,
    decreases j - i,
{
    if i < j {
        lemma_wf_increasing(rs, i, j - 1);
        assert(rs[j].0 > rs[j - 1].1);
        assert(rs[j - 1].0 < rs[j - 1].1);
    }
}

// ───────────── detection ─────────────

/// Scan state after some frames: (in a region, loud run, quiet run, first
/// frame of the open region, closed regions in ms).
pub open spec fn vad_scan(active: Seq<bool>) -> (bool, nat, nat, nat, Seq<(u64, u64)>)
    decreases active.len(),
{
    if active.len() == 0 {
        (false, 0, 0, 0, seq![])
    } else {
        let (inr, above, below, start, rs) = vad_scan(active.drop_last());
        let idx = active.len() - 1;
        if active.last() {
            if !inr && above + 1 >= 3 {
                (true, above + 1, 0, (idx + 1 - 3) as nat, rs)
            } else {
                (inr, above + 1, 0, start, rs)
            }
        } else {
            if inr && below + 1 >= 8 {
                let s = start * 20;
                let e = (idx + 1 - 8) * 20;
                (false, 0, below + 1, start, if e > s {
                    rs.push((s as u64, e as u64))
                } else {
                    rs
                })
            } else {
                (inr, 0, below + 1, start, rs)
            }
        }
    }
}

/// Regions before merging: the closed ones plus one still open at the end.
pub open spec fn raw_regions(active: Seq<bool>) -> Seq<(u64, u64)> {
    let (inr, _a, _b, start, rs) = vad_scan(active);
    if inr && active.len() * 20 > start * 20 {
        rs.push(((start * 20) as u64, (active.len() * 20) as u64))
    } else {
        rs
    }
}

/// Regions at most `MERGE_GAP_MS` after the previous one are joined to it.
pub open spec fn merge_regions(rs: Seq<(u64, u64)>) -> Seq<(u64, u64)>
    decreases rs.len(),
{
    if rs.len() == 0 {
        seq![]
    } else {
        let m = merge_regions(rs.drop_last());
        let r = rs.last();
        if m.len() > 0 && sat_sub(r.0, m.last().1) <= MERGE_GAP_MS {
            m.update(m.len() - 1, (m.last().0, r.1))
        } else {
            m.push(r)
        }
    }
}

pub open spec fn long_enough() -> spec_fn((u64, u64)) -> bool {
    |r: (u64, u64)| sat_sub(r.1, r.0) >= MIN_REGION_MS
}

/// `detect_vocals`: merged regions, those shorter than `MIN_REGION_MS` dropped.
pub open spec fn vocal_regions(active: Seq<bool>) -> Seq<(u64, u64)> {
    merge_regions(raw_regions(active)).filter(long_enough())
}

/// Voice regions of a vocals track from its per-frame decisions (`active[i]`:
/// frame `i` of `FRAME_MS` is louder than the noise floor plus the speech
/// offset). A region opens after `ENTER_FRAMES` loud frames and closes after
/// `EXIT_FRAMES` quiet ones; close regions are merged and short ones dropped.
pub fn detect_vocals(active: &[bool]) -> (r: VocalIntervals)
    requires
        active@.len() * 20 <= u64::MAX,
    ensures
        r.regions@ == vocal_regions(active@),
{
    let n = active.len();
    let mut in_region = false;
    let mut above: usize = 0;
    let mut below: usize = 0;
    let mut start: usize = 0;
    let mut regions: Vec<(u64, u64)> = Vec::new();
    let mut idx: usize = 0;
    while idx < n
        invariant
            idx <= n == active@.len(),
            n * 20 <= u64::MAX,
            above <= idx,
            below <= idx,
            start <= idx,
            (in_region, above as nat, below as nat, start as nat, regions@) == vad_scan(
                active@.take(idx as int),
            ),
        decreases n - idx,
    {
        proof {
            assert(active@.take(idx + 1).drop_last() =~= active@.take(idx as int));
            assert(active@.take(idx + 1).last() == active@[idx as int]);
            lemma_scan_bounds(active@.take(idx as int));
        }
        if active[idx] {
            above += 1;
            below = 0;
            if !in_region && above >= ENTER_FRAMES {
                in_region = true;
                start = idx + 1 - ENTER_FRAMES;
            }
        } else {
            below += 1;
            above = 0;
            if in_region && below >= EXIT_FRAMES {
                in_region = false;
                let end = idx + 1 - EXIT_FRAMES;
                let s = start as u64 * FRAME_MS;
                let e = end as u64 * FRAME_MS;
                if e > s {
                    regions.push((s, e));
                }
            }
        }
        idx += 1;
    }
    proof {
        assert(active@.take(n as int) =~= active@);
    }
    if in_region {
        let s = start as u64 * FRAME_MS;
        let e = n as u64 * FRAME_MS;
        if e > s {
            regions.push((s, e));
        }
    }
    let mut merged: Vec<(u64, u64)> = Vec::new();
    let mut k: usize = 0;
    while k < regions.len()
        invariant
            k <= regions@.len(),
            regions@ == raw_regions(active@),
            merged@ == merge_regions(regions@.take(k as int)),
        decreases regions@.len() - k,
    {
        let r = regions[k];
        proof {
            assert(regions@.take(k + 1).drop_last() =~= regions@.take(k as int));
        }
        if merged.len() > 0 {
            let last = merged[merged.len() - 1];
            let gap = if r.0 >= last.1 {
                r.0 - last.1
            } else {
                0
            };
            if gap <= MERGE_GAP_MS {
                let m = merged.len() - 1;
                merged.set(m, (last.0, r.1));
                k += 1;
                continue;
            }
        }
        merged.push(r);
        k += 1;
    }
    proof {
        assert(regions@.take(regions@.len() as int) =~= regions@);
    }
    let mut kept: Vec<(u64, u64)> = Vec::new();
    let mut k: usize = 0;
    while k < merged.len()
        invariant
            k <= merged@.len(),
            kept@ == merged@.take(k as int).filter(long_enough()),
        decreases merged@.len() - k,
    {
        let r = merged[k];
        proof {
            assert(merged@.take(k + 1) =~= merged@.take(k as int).push(r));
            merged@.take(k as int).lemma_filter_push(r, long_enough());
        }
        let len = if r.1 >= r.0 {
            r.1 - r.0
        } else {
            0
        };
        if len >= MIN_REGION_MS {
            kept.push(r);
        }
        k += 1;
    }
    proof {
        assert(merged@.take(merged@.len() as int) =~= merged@);
    }
    VocalIntervals { regions: kept }
}

proof fn lemma_scan_bounds(active: Seq<bool>)
    ensures
        ({
            let (inr, above, below, start, rs) = vad_scan(active);
            above <= active.len() && below <= active.len() && start <= active.len()
        }),
    decreases active.len(),
{
    if active.len() > 0 {
        lemma_scan_bounds(active.drop_last());
    }
}

/// Regions in order, each non-empty, strictly after the previous one.
pub open spec fn regions_increasing(rs: Seq<(u64, u64)>) -> bool {
    &&& forall|i: int| 0 <= i < rs.len() ==> (#[trigger] rs[i]).0 < rs[i].1
    &&& forall|i: int| 0 < i < rs.len() ==> (#[trigger] rs[i]).0 > rs[i - 1].1
}

proof fn lemma_scan_invariant(active: Seq<bool>)
    requires
        active.len() * 20 <= u64::MAX,
    ensures
        ({
            let (inr, above, below, start, rs) = vad_scan(active);
            &&& regions_increasing(rs)
            &&& rs.len() > 0 ==> rs.last().1 + 160 <= active.len() * 20
            &&& (inr && rs.len() > 0) ==> start * 20 > rs.last().1
            &&& inr ==> start + 3 <= active.len()
        }),
    decreases active.len(),
{
    if active.len() > 0 {
        let d = active.drop_last();
        lemma_scan_invariant(d);
        lemma_scan_bounds(d);
        let (inr, above, below, start, rs) = vad_scan(d);
        let idx = active.len() - 1;
        if !active.last() && inr && below + 1 >= 8 {
            let s = start * 20;
            let e = (idx + 1 - 8) * 20;
            if e > s {
                let rs2 = rs.push((s as u64, e as u64));
                assert(start <= d.len());
                assert(s <= u64::MAX && e <= u64::MAX);
                assert(regions_increasing(rs2)) by {
                    assert forall|i: int| 0 < i < rs2.len() implies (#[trigger] rs2[i]).0 > rs2[i - 1].1 by {
                        if i < rs2.len() - 1 {
                            assert(rs2[i] == rs[i] && rs2[i - 1] == rs[i - 1]);
                        }
                    }
                    assert forall|i: int| 0 <= i < rs2.len() implies (#[trigger] rs2[i]).0 < rs2[i].1 by {
                        if i < rs2.len() - 1 {
                            assert(rs2[i] == rs[i]);
                        }
                    }
                }
            }
        }
    }
}

proof fn lemma_raw_increasing(active: Seq<bool>)
    requires
        active.len() * 20 <= u64::MAX,
    ensures
        regions_increasing(raw_regions(active)),
{
    lemma_scan_invariant(active);
    let (inr, above, below, start, rs) = vad_scan(active);
    if inr && active.len() * 20 > start * 20 {
        let rs2 = rs.push(((start * 20) as u64, (active.len() * 20) as u64));
        assert forall|i: int| 0 < i < rs2.len() implies (#[trigger] rs2[i]).0 > rs2[i - 1].1 by {
            if i < rs2.len() - 1 {
                assert(rs2[i] == rs[i] && rs2[i - 1] == rs[i - 1]);
            }
        }
        assert forall|i: int| 0 <= i < rs2.len() implies (#[trigger] rs2[i]).0 < rs2[i].1 by {
            if i < rs2.len() - 1 {
                assert(rs2[i] == rs[i]);
            }
        }
    }
}

proof fn lemma_merge_wf(rs: Seq<(u64, u64)>)
    requires
        regions_increasing(rs),
    ensures
        regions_wf(merge_regions(rs)),
        rs.len() > 0 ==> merge_regions(rs).len() > 0 && merge_regions(rs).last().1 == rs.last().1,
    decreases rs.len(),
{
    if rs.len() > 0 {
        let d = rs.drop_last();
        assert(regions_increasing(d)) by {
            assert forall|i: int| 0 < i < d.len() implies (#[trigger] d[i]).0 > d[i - 1].1 by {
                assert(d[i] == rs[i] && d[i - 1] == rs[i - 1]);
            }
            assert forall|i: int| 0 <= i < d.len() implies (#[trigger] d[i]).0 < d[i].1 by {
                assert(d[i] == rs[i]);
            }
        }
        lemma_merge_wf(d);
        let m = merge_regions(d);
        let r = rs.last();
        assert(r.0 < r.1);
        if d.len() > 0 {
            assert(rs[rs.len() - 1].0 > rs[rs.len() - 2].1);
            assert(m.last().1 == d.last().1);
        }
        if m.len() > 0 && sat_sub(r.0, m.last().1) <= MERGE_GAP_MS {
            let m2 = m.update(m.len() - 1, (m.last().0, r.1));
            assert(m.last().0 < m.last().1);
            assert forall|i: int| 0 < i < m2.len() implies (#[trigger] m2[i]).0 > m2[i - 1].1 + MERGE_GAP_MS by {
                assert(m2[i - 1] == m[i - 1]);
                if i < m2.len() - 1 {
                    assert(m2[i] == m[i]);
                }
            }
            assert forall|i: int| 0 <= i < m2.len() implies (#[trigger] m2[i]).0 < m2[i].1 by {
                if i < m2.len() - 1 {
                    assert(m2[i] == m[i]);
                }
            }
        } else {
            let m2 = m.push(r);
            assert forall|i: int| 0 < i < m2.len() implies (#[trigger] m2[i]).0 > m2[i - 1].1 + MERGE_GAP_MS by {
                if i < m2.len() - 1 {
                    assert(m2[i] == m[i] && m2[i - 1] == m[i - 1]);
                }
            }
            assert forall|i: int| 0 <= i < m2.len() implies (#[trigger] m2[i]).0 < m2[i].1 by {
                if i < m2.len() - 1 {
                    assert(m2[i] == m[i]);
                }
            }
        }
    }
}

proof fn lemma_filter_wf(rs: Seq<(u64, u64)>)
    requires
        regions_wf(rs),
    ensures
        regions_wf(rs.filter(long_enough())),
        rs.filter(long_enough()).len() > 0 ==> rs.len() > 0 && rs.filter(long_enough()).last().1
            <= rs.last().1,
        forall|i: int|
            0 <= i < rs.filter(long_enough()).len() ==> long_enough()(#[trigger] rs.filter(long_enough())[i]),
    decreases rs.len(),
{
    reveal(Seq::filter);
    if rs.len() > 0 {
        let d = rs.drop_last();
        assert(regions_wf(d)) by {
            assert forall|i: int| 0 < i < d.len() implies (#[trigger] d[i]).0 > d[i - 1].1 + MERGE_GAP_MS by {
                assert(d[i] == rs[i] && d[i - 1] == rs[i - 1]);
            }
            assert forall|i: int| 0 <= i < d.len() implies (#[trigger] d[i]).0 < d[i].1 by {
                assert(d[i] == rs[i]);
            }
        }
        lemma_filter_wf(d);
        let f = d.filter(long_enough());
        let x = rs.last();
        assert(x.0 < x.1);
        if long_enough()(x) {
            let f2 = f.push(x);
            if f.len() > 0 {
                assert(rs[rs.len() - 1].0 > rs[rs.len() - 2].1 + MERGE_GAP_MS);
                assert(f.last().1 <= d.last().1);
            }
            assert forall|i: int| 0 < i < f2.len() implies (#[trigger] f2[i]).0 > f2[i - 1].1 + MERGE_GAP_MS by {
                if i < f2.len() - 1 {
                    assert(f2[i] == f[i] && f2[i - 1] == f[i - 1]);
                }
            }
            assert forall|i: int| 0 <= i < f2.len() implies (#[trigger] f2[i]).0 < f2[i].1 by {
                if i < f2.len() - 1 {
                    assert(f2[i] == f[i]);
                }
            }
            assert forall|i: int| 0 <= i < f2.len() implies long_enough()(#[trigger] f2[i]) by {
                if i < f2.len() - 1 {
                    assert(f2[i] == f[i]);
                }
            }
        } else {
            if f.len() > 0 {
                assert(rs[rs.len() - 1].0 > rs[rs.len() - 2].1 + MERGE_GAP_MS);
                assert(f.last().1 <= d.last().1);
            }
        }
    }
}

/// The regions `detect_vocals` reports are in order, non-empty, at least
/// `MIN_REGION_MS` long, and separated by more than `MERGE_GAP_MS`.
pub proof fn law_detected_regions_wf(active: Seq<bool>)
    requires
        active.len() * 20 <= u64::MAX,
    ensures
        regions_wf(vocal_regions(active)),
        forall|i: int|
            0 <= i < vocal_regions(active).len() ==> (#[trigger] vocal_regions(active)[i]).1
                >= vocal_regions(active)[i].0 + MIN_REGION_MS,
{
    lemma_raw_increasing(active);
    lemma_merge_wf(raw_regions(active));
    lemma_filter_wf(merge_regions(raw_regions(active)));
    let v = vocal_regions(active);
    assert forall|i: int| 0 <= i < v.len() implies (#[trigger] v[i]).1 >= v[i].0 + MIN_REGION_MS by {
        assert(long_enough()(v[i]));
    }
}

/// Region ends on the 20 ms frame grid, none past `bound`.
pub open spec fn on_grid(rs: Seq<(u64, u64)>, bound: int) -> bool {
    forall|i: int|
        0 <= i < rs.len() ==> (#[trigger] rs[i]).0 % 20 == 0 && rs[i].1 % 20 == 0 && rs[i].1 <= bound
}

proof fn lemma_times20(x: int)
    requires
        x >= 0,
    ensures
        (x * 20) % 20 == 0,
{
    vstd::arithmetic::div_mod::lemma_mod_multiples_basic(x, 20);
}

proof fn lemma_scan_grid(active: Seq<bool>)
    requires
        active.len() * 20 <= u64::MAX,
    ensures
        on_grid(vad_scan(active).4, (active.len() * 20) as int),
    decreases active.len(),
{
    if active.len() > 0 {
        let d = active.drop_last();
        lemma_scan_grid(d);
        lemma_scan_bounds(d);
        let (inr, above, below, start, rs) = vad_scan(d);
        let idx = active.len() - 1;
        if !active.last() && inr && below + 1 >= 8 {
            let s = start * 20;
            let e = (idx + 1 - 8) * 20;
            if e > s {
                lemma_times20(start as int);
                lemma_times20(idx + 1 - 8);
                let rs2 = rs.push((s as u64, e as u64));
                assert forall|i: int| 0 <= i < rs2.len() implies (#[trigger] rs2[i]).0 % 20 == 0
                    && rs2[i].1 % 20 == 0 && rs2[i].1 <= active.len() * 20 by {
                    if i < rs.len() {
                        assert(rs2[i] == rs[i]);
                    }
                }
            }
        }
    }
}

proof fn lemma_raw_grid(active: Seq<bool>)
    requires
        active.len() * 20 <= u64::MAX,
    ensures
        on_grid(raw_regions(active), (active.len() * 20) as int),
{
    lemma_scan_grid(active);
    lemma_scan_bounds(active);
    let (inr, _a, _b, start, rs) = vad_scan(active);
    if inr && active.len() * 20 > start * 20 {
        lemma_times20(start as int);
        lemma_times20(active.len() as int);
        let rs2 = rs.push(((start * 20) as u64, (active.len() * 20) as u64));
        assert forall|i: int| 0 <= i < rs2.len() implies (#[trigger] rs2[i]).0 % 20 == 0
            && rs2[i].1 % 20 == 0 && rs2[i].1 <= active.len() * 20 by {
            if i < rs.len() {
                assert(rs2[i] == rs[i]);
            }
        }
    }
}

proof fn lemma_merge_grid(rs: Seq<(u64, u64)>, bound: int)
    requires
        on_grid(rs, bound),
    ensures
        on_grid(merge_regions(rs), bound),
    decreases rs.len(),
{
    if rs.len() > 0 {
        let d = rs.drop_last();
        assert(on_grid(d, bound)) by {
            assert forall|i: int| 0 <= i < d.len() implies (#[trigger] d[i]).0 % 20 == 0 && d[i].1 % 20 == 0
                && d[i].1 <= bound by {
                assert(d[i] == rs[i]);
            }
        }
        lemma_merge_grid(d, bound);
        let m = merge_regions(d);
        let r = rs.last();
        assert(r == rs[rs.len() - 1]);
        if m.len() > 0 && sat_sub(r.0, m.last().1) <= MERGE_GAP_MS {
            let m2 = m.update(m.len() - 1, (m.last().0, r.1));
            assert(m.last() == m[m.len() - 1]);
            assert forall|i: int| 0 <= i < m2.len() implies (#[trigger] m2[i]).0 % 20 == 0
                && m2[i].1 % 20 == 0 && m2[i].1 <= bound by {
                if i < m.len() - 1 {
                    assert(m2[i] == m[i]);
                }
            }
        } else {
            let m2 = m.push(r);
            assert forall|i: int| 0 <= i < m2.len() implies (#[trigger] m2[i]).0 % 20 == 0
                && m2[i].1 % 20 == 0 && m2[i].1 <= bound by {
                if i < m.len() {
                    assert(m2[i] == m[i]);
                }
            }
        }
    }
}

proof fn lemma_filter_grid(rs: Seq<(u64, u64)>, bound: int)
    requires
        on_grid(rs, bound),
    ensures
        on_grid(rs.filter(long_enough()), bound),
    decreases rs.len(),
{
    reveal(Seq::filter);
    if rs.len() > 0 {
        let d = rs.drop_last();
        assert(on_grid(d, bound)) by {
            assert forall|i: int| 0 <= i < d.len() implies (#[trigger] d[i]).0 % 20 == 0 && d[i].1 % 20 == 0
                && d[i].1 <= bound by {
                assert(d[i] == rs[i]);
            }
        }
        lemma_filter_grid(d, bound);
        let f = d.filter(long_enough());
        let x = rs.last();
        assert(x == rs[rs.len() - 1]);
        if long_enough()(x) {
            let f2 = f.push(x);
            assert forall|i: int| 0 <= i < f2.len() implies (#[trigger] f2[i]).0 % 20 == 0
                && f2[i].1 % 20 == 0 && f2[i].1 <= bound by {
                if i < f.len() {
                    assert(f2[i] == f[i]);
                }
            }
        }
    }
}

/// The regions `detect_vocals` reports start and end on the 20 ms frame
/// grid, and none ends after the last whole frame.
pub proof fn law_detected_regions_on_grid(active: Seq<bool>)
    requires
        active.len() * 20 <= u64::MAX,
    ensures
        on_grid(vocal_regions(active), (active.len() * 20) as int),
{
    lemma_raw_grid(active);
    lemma_merge_grid(raw_regions(active), (active.len() * 20) as int);
    lemma_filter_grid(merge_regions(raw_regions(active)), (active.len() * 20) as int);
}

} // verus!
