//! Token spans of a dynamic-time-warping path.
use vstd::prelude::*;

verus! {

/// Spans after the first `len` path points: per token the least and the
/// greatest frame seen so far (`(usize::MAX, 0)` while unseen).
pub open spec fn spans_fold(path: Seq<(usize, usize)>, n: nat, len: int) -> Seq<(usize, usize)>
    decreases len,
{
    if len <= 0 {
        Seq::new(n, |_i: int| (usize::MAX, 0usize))
    } else {
        let prev = spans_fold(path, n, len - 1);
        let tok = path[len - 1].0 as int;
        let f = path[len - 1].1;
        let s = prev[tok].0;
        let e = prev[tok].1;
        prev.update(
            tok,
            (
                if f < s {
                    f
                } else {
                    s
                },
                if f > e {
                    f
                } else {
                    e
                },
            ),
        )
    }
}

/// The spans `path_to_token_spans` returns: an unseen token starts at 0.
pub open spec fn path_spans(path: Seq<(usize, usize)>, n: nat) -> Seq<(usize, usize)> {
    spans_fold(path, n, path.len() as int).map_values(
        |p: (usize, usize)|
            if p.0 == usize::MAX {
                (0usize, p.1)
            } else {
                p
            },
    )
}

pub open spec fn tokens_below(path: Seq<(usize, usize)>, n: nat) -> bool {
    forall|i: int| 0 <= i < path.len() ==> (#[trigger] path[i]).0 < n
}

proof fn lemma_fold_len(path: Seq<(usize, usize)>, n: nat, len: int)
    requires
        tokens_below(path, n),
        len <= path.len(),
    ensures
        spans_fold(path, n, len).len() == n,
    decreases len,
{
    if len > 0 {
        lemma_fold_len(path, n, len - 1);
    }
}

/// Given a DTW path, return for each token index the start and end frame index.
///
/// `start[i]` = first frame assigned to token i
/// `end[i]`   = last frame assigned to token i (inclusive)
pub fn path_to_token_spans(path: &[(usize, usize)], n_tokens: usize) -> (r: Vec<(usize, usize)>)
    requires
        tokens_below(path@, n_tokens as nat),
    ensures
        r@ == path_spans(path@, n_tokens as nat),
{
    let ghost n = n_tokens as nat;
    let mut spans: Vec<(usize, usize)> = Vec::new();
    let mut k: usize = 0;
    while k < n_tokens
        invariant
            k <= n_tokens,
            spans@ == Seq::new(k as nat, |_i: int| (usize::MAX, 0usize)),
        decreases n_tokens - k,
    {
        spans.push((usize::MAX, 0));
        k += 1;
    }
    let mut i: usize = 0;
    while i < path.len()
        invariant
            i <= path@.len(),
            n == n_tokens,
            tokens_below(path@, n),
            spans@ == spans_fold(path@, n, i as int),
        decreases path@.len() - i,
    {
        proof {
            lemma_fold_len(path@, n, i as int);
        }
        let (tok, frame) = path[i];
        let (s, e) = spans[tok];
        let s2 = if frame < s {
            frame
        } else {
            s
        };
        let e2 = if frame > e {
            frame
        } else {
            e
        };
        spans.set(tok, (s2, e2));
        i += 1;
    }
    proof {
        lemma_fold_len(path@, n, path@.len() as int);
    }
    // Tokens that never appeared (a valid path covers them all) start at 0.
    let ghost folded = spans@;
    let mut k: usize = 0;
    while k < spans.len()
        invariant
            k <= spans@.len() == folded.len(),
            forall|j: int|
                0 <= j < k ==> #[trigger] spans@[j] == (if folded[j].0 == usize::MAX {
                    (0usize, folded[j].1)
                } else {
                    folded[j]
                }),
            forall|j: int| k <= j < spans@.len() ==> #[trigger] spans@[j] == folded[j],
        decreases spans@.len() - k,
    {
        let (s, e) = spans[k];
        if s == usize::MAX {
            spans.set(k, (0, e));
        }
        k += 1;
    }
    assert(spans@ =~= path_spans(path@, n));
    spans
}

/// After `len` points, a token's fold entry bounds all its frames seen so
/// far; an unseen token still holds `(usize::MAX, 0)`.
proof fn lemma_fold_bounds(path: Seq<(usize, usize)>, n: nat, len: int, k: int)
    requires
        tokens_below(path, n),
        0 <= len <= path.len(),
        0 <= k < n,
    ensures
        forall|i: int|
            0 <= i < len && (#[trigger] path[i]).0 == k ==> spans_fold(path, n, len)[k].0 <= path[i].1
                <= spans_fold(path, n, len)[k].1,
        (forall|i: int| 0 <= i < len ==> (#[trigger] path[i]).0 != k) ==> spans_fold(path, n, len)[k]
            == (usize::MAX, 0usize),
        (exists|i: int| 0 <= i < len && (#[trigger] path[i]).0 == k) ==> exists|i: int|
            0 <= i < len && (#[trigger] path[i]).0 == k && path[i].1 == spans_fold(path, n, len)[k].0,
        (exists|i: int| 0 <= i < len && (#[trigger] path[i]).0 == k) ==> exists|i: int|
            0 <= i < len && (#[trigger] path[i]).0 == k && path[i].1 == spans_fold(path, n, len)[k].1,
    decreases len,
{
    lemma_fold_len(path, n, len);
    if len > 0 {
        lemma_fold_bounds(path, n, len - 1, k);
        lemma_fold_len(path, n, len - 1);
        let prev = spans_fold(path, n, len - 1);
        let cur = spans_fold(path, n, len);
        if path[len - 1].0 != k {
            assert(cur[k] == prev[k]);
            if exists|i: int| 0 <= i < len && (#[trigger] path[i]).0 == k {
                let i = choose|i: int| 0 <= i < len && (#[trigger] path[i]).0 == k;
                assert(i < len - 1);
            }
        } else {
            if exists|i: int| 0 <= i < len - 1 && (#[trigger] path[i]).0 == k {
                if path[len - 1].1 > prev[k].1 {
                    assert(cur[k].1 == path[len - 1].1);
                }
            } else {
                assert(path[len - 1].1 == cur[k].0 || prev[k].0 == usize::MAX);
                assert(path[len - 1].1 == cur[k].1);
            }
        }
    }
}

/// Every frame a token is assigned on the path lies inside its span; a token
/// the path never visits gets `(0, 0)`.
pub proof fn law_path_spans_cover_frames(path: Seq<(usize, usize)>, n: nat)
    requires
        tokens_below(path, n),
        forall|i: int| 0 <= i < path.len() ==> (#[trigger] path[i]).1 < usize::MAX,
    ensures
        path_spans(path, n).len() == n,
        forall|k: int, i: int|
            0 <= k < n && 0 <= i < path.len() && (#[trigger] path[i]).0 == k ==> #[trigger] path_spans(
                path,
                n,
            )[k].0 <= path[i].1 <= path_spans(path, n)[k].1,
        forall|k: int|
            0 <= k < n && (forall|i: int| 0 <= i < path.len() ==> (#[trigger] path[i]).0 != k)
                ==> #[trigger] path_spans(path, n)[k] == (0usize, 0usize),
{
    let len = path.len() as int;
    lemma_fold_len(path, n, len);
    assert forall|k: int, i: int|
        0 <= k < n && 0 <= i < path.len() && (#[trigger] path[i]).0 == k implies #[trigger] path_spans(
        path,
        n,
    )[k].0 <= path[i].1 <= path_spans(path, n)[k].1 by {
        lemma_fold_bounds(path, n, len, k);
        let w = choose|w: int| 0 <= w < len && (#[trigger] path[w]).0 == k && path[w].1 == spans_fold(
            path,
            n,
            len,
        )[k].0;
        assert(spans_fold(path, n, len)[k].0 < usize::MAX);
    }
    assert forall|k: int|
        0 <= k < n && (forall|i: int| 0 <= i < path.len() ==> (#[trigger] path[i]).0 != k) implies #[trigger] path_spans(
        path,
        n,
    )[k] == (0usize, 0usize) by {
        lemma_fold_bounds(path, n, len, k);
    }
}

/// A visited token's span runs from the least to the greatest frame the path
/// assigns it: both ends are frames of that token on the path.
pub proof fn law_path_spans_are_extremes(path: Seq<(usize, usize)>, n: nat, k: int)
    requires
        tokens_below(path, n),
        forall|i: int| 0 <= i < path.len() ==> (#[trigger] path[i]).1 < usize::MAX,
        0 <= k < n,
        exists|i: int| 0 <= i < path.len() && (#[trigger] path[i]).0 == k,
    ensures
        exists|i: int| 0 <= i < path.len() && (#[trigger] path[i]).0 == k && path[i].1 == path_spans(path, n)[k].0,
        exists|i: int| 0 <= i < path.len() && (#[trigger] path[i]).0 == k && path[i].1 == path_spans(path, n)[k].1,
{
    let len = path.len() as int;
    lemma_fold_len(path, n, len);
    lemma_fold_bounds(path, n, len, k);
    let w = choose|w: int| 0 <= w < len && (#[trigger] path[w]).0 == k && path[w].1 == spans_fold(
        path,
        n,
        len,
    )[k].0;
    assert(spans_fold(path, n, len)[k].0 < usize::MAX);
    assert(path_spans(path, n)[k] == spans_fold(path, n, len)[k]);
}

} // verus!
