//! Stable insertion by key, and the stable sort built from it.
use vstd::prelude::*;

verus! {

/// `s` with `x` inserted after every element whose key is `<=` its key,
/// counted from the back (for a sorted `s`: after its equal-key group).
pub open spec fn insert_by<T>(s: Seq<T>, x: T, key: spec_fn(T) -> int) -> Seq<T>
    decreases s.len(),
{
    if s.len() == 0 || key(s.last()) <= key(x) {
        s.push(x)
    } else {
        insert_by(s.drop_last(), x, key).push(s.last())
    }
}

/// Stable sort by key: elements with equal keys keep their relative order.
pub open spec fn sort_by<T>(s: Seq<T>, key: spec_fn(T) -> int) -> Seq<T>
    decreases s.len(),
{
    if s.len() == 0 {
        s
    } else {
        insert_by(sort_by(s.drop_last(), key), s.last(), key)
    }
}

pub open spec fn sorted_by<T>(s: Seq<T>, key: spec_fn(T) -> int) -> bool {
    forall|i: int, j: int| 0 <= i <= j < s.len() ==> key(#[trigger] s[i]) <= key(#[trigger] s[j])
}

/// Where the backwards scan for `x` stops, `insert_by` places it.
pub proof fn lemma_insert_by_at<T>(s: Seq<T>, x: T, key: spec_fn(T) -> int, j: int)
    requires
        0 <= j <= s.len(),
        forall|k: int| j <= k < s.len() ==> key(#[trigger] s[k]) > key(x),
        j > 0 ==> key(s[j - 1]) <= key(x),
    ensures
        insert_by(s, x, key) == s.insert(j, x),
    decreases s.len(),
{
    if j == s.len() {
        assert(s.push(x) =~= s.insert(j, x));
    } else {
        let d = s.drop_last();
        lemma_insert_by_at(d, x, key, j);
        assert(d.insert(j, x).push(s.last()) =~= s.insert(j, x));
    }
}

pub proof fn lemma_insert_by_len<T>(s: Seq<T>, x: T, key: spec_fn(T) -> int)
    ensures
        insert_by(s, x, key).len() == s.len() + 1,
    decreases s.len(),
{
    if s.len() > 0 && key(s.last()) > key(x) {
        lemma_insert_by_len(s.drop_last(), x, key);
    }
}

pub proof fn lemma_insert_by_multiset<T>(s: Seq<T>, x: T, key: spec_fn(T) -> int)
    ensures
        insert_by(s, x, key).to_multiset() == s.to_multiset().insert(x),
    decreases s.len(),
{
    broadcast use vstd::seq_lib::group_to_multiset_ensures;

    if s.len() > 0 && key(s.last()) > key(x) {
        let d = s.drop_last();
        lemma_insert_by_multiset(d, x, key);
        assert(s =~= d.push(s.last()));
        assert(insert_by(s, x, key).to_multiset() =~= s.to_multiset().insert(x));
    }
}

/// Elements of `insert_by` are `x` or elements of `s`, with their keys.
proof fn lemma_insert_by_elems<T>(s: Seq<T>, x: T, key: spec_fn(T) -> int)
    ensures
        forall|k: int|
            0 <= k < insert_by(s, x, key).len() ==> (#[trigger] insert_by(s, x, key)[k] == x
                || exists|m: int| 0 <= m < s.len() && s[m] == insert_by(s, x, key)[k]),
    decreases s.len(),
{
    lemma_insert_by_len(s, x, key);
    if s.len() > 0 && key(s.last()) > key(x) {
        let d = s.drop_last();
        lemma_insert_by_elems(d, x, key);
        lemma_insert_by_len(d, x, key);
        assert forall|k: int| 0 <= k < insert_by(s, x, key).len() implies (#[trigger] insert_by(
            s,
            x,
            key,
        )[k] == x || exists|m: int| 0 <= m < s.len() && s[m] == insert_by(s, x, key)[k]) by {
            if k == insert_by(s, x, key).len() - 1 {
                assert(s[s.len() - 1] == insert_by(s, x, key)[k]);
            } else {
                assert(insert_by(s, x, key)[k] == insert_by(d, x, key)[k]);
                if insert_by(d, x, key)[k] != x {
                    let m = choose|m: int| 0 <= m < d.len() && d[m] == insert_by(d, x, key)[k];
                    assert(s[m] == d[m]);
                }
            }
        }
    } else {
        assert forall|k: int| 0 <= k < insert_by(s, x, key).len() implies (#[trigger] insert_by(
            s,
            x,
            key,
        )[k] == x || exists|m: int| 0 <= m < s.len() && s[m] == insert_by(s, x, key)[k]) by {
            if k < s.len() {
                assert(s[k] == insert_by(s, x, key)[k]);
            }
        }
    }
}

pub proof fn lemma_insert_by_sorted<T>(s: Seq<T>, x: T, key: spec_fn(T) -> int)
    requires
        sorted_by(s, key),
    ensures
        sorted_by(insert_by(s, x, key), key),
    decreases s.len(),
{
    let r = insert_by(s, x, key);
    lemma_insert_by_len(s, x, key);
    if s.len() == 0 || key(s.last()) <= key(x) {
        assert forall|i: int, j: int| 0 <= i <= j < r.len() implies key(#[trigger] r[i]) <= key(
            #[trigger] r[j],
        ) by {
            if j == r.len() - 1 && i < j {
                assert(key(s[i]) <= key(s[s.len() - 1]));
            }
        }
    } else {
        let d = s.drop_last();
        assert(sorted_by(d, key));
        lemma_insert_by_sorted(d, x, key);
        lemma_insert_by_elems(d, x, key);
        let rd = insert_by(d, x, key);
        assert forall|i: int, j: int| 0 <= i <= j < r.len() implies key(#[trigger] r[i]) <= key(
            #[trigger] r[j],
        ) by {
            if j == r.len() - 1 && i < j {
                assert(r[i] == rd[i]);
                if rd[i] != x {
                    let m = choose|m: int| 0 <= m < d.len() && d[m] == rd[i];
                    assert(key(s[m]) <= key(s[s.len() - 1]));
                }
            } else if j < r.len() - 1 {
                assert(r[i] == rd[i] && r[j] == rd[j]);
            }
        }
    }
}

/// The stable sort is sorted.
pub proof fn lemma_sort_by_sorted<T>(s: Seq<T>, key: spec_fn(T) -> int)
    ensures
        sorted_by(sort_by(s, key), key),
    decreases s.len(),
{
    if s.len() > 0 {
        lemma_sort_by_sorted(s.drop_last(), key);
        lemma_insert_by_sorted(sort_by(s.drop_last(), key), s.last(), key);
    }
}

/// The stable sort is a permutation.
pub proof fn lemma_sort_by_multiset<T>(s: Seq<T>, key: spec_fn(T) -> int)
    ensures
        sort_by(s, key).to_multiset() == s.to_multiset(),
    decreases s.len(),
{
    broadcast use vstd::seq_lib::group_to_multiset_ensures;

    if s.len() > 0 {
        let d = s.drop_last();
        lemma_sort_by_multiset(d, key);
        lemma_insert_by_multiset(sort_by(d, key), s.last(), key);
        assert(s =~= d.push(s.last()));
    }
}

pub proof fn lemma_sort_by_len<T>(s: Seq<T>, key: spec_fn(T) -> int)
    ensures
        sort_by(s, key).len() == s.len(),
    decreases s.len(),
{
    if s.len() > 0 {
        lemma_sort_by_len(s.drop_last(), key);
        lemma_insert_by_len(sort_by(s.drop_last(), key), s.last(), key);
    }
}

/// Sorting an already sorted sequence changes nothing.
pub proof fn lemma_sort_by_sorted_id<T>(s: Seq<T>, key: spec_fn(T) -> int)
    requires
        sorted_by(s, key),
    ensures
        sort_by(s, key) == s,
    decreases s.len(),
{
    if s.len() > 0 {
        let d = s.drop_last();
        assert(sorted_by(d, key));
        lemma_sort_by_sorted_id(d, key);
        if d.len() > 0 {
            assert(key(d.last()) <= key(s.last()));
        }
        assert(d.push(s.last()) =~= s);
    }
}

/// Sorting keeps every key within bounds that held before.
pub proof fn lemma_sort_by_bounded<T>(s: Seq<T>, key: spec_fn(T) -> int, lo: int, hi: int)
    requires
        forall|k: int| 0 <= k < s.len() ==> lo <= #[trigger] key(s[k]) <= hi,
    ensures
        forall|k: int|
            0 <= k < sort_by(s, key).len() ==> lo <= #[trigger] key(sort_by(s, key)[k]) <= hi,
    decreases s.len(),
{
    if s.len() > 0 {
        let d = s.drop_last();
        let sd = sort_by(d, key);
        lemma_sort_by_bounded(d, key, lo, hi);
        lemma_insert_by_elems(sd, s.last(), key);
        assert(key(s[s.len() - 1]) <= hi);
        assert forall|k: int| 0 <= k < sort_by(s, key).len() implies lo <= #[trigger] key(
            sort_by(s, key)[k],
        ) <= hi by {
            if sort_by(s, key)[k] != s.last() {
                let m = choose|m: int| 0 <= m < sd.len() && sd[m] == insert_by(sd, s.last(), key)[k];
                assert(lo <= key(sd[m]) <= hi);
            }
        }
    }
}

/// Elements whose key is `k`.
pub open spec fn key_is<T>(key: spec_fn(T) -> int, k: int) -> spec_fn(T) -> bool {
    |y: T| key(y) == k
}

proof fn lemma_insert_by_filter<T>(s: Seq<T>, x: T, key: spec_fn(T) -> int, k: int)
    ensures
        insert_by(s, x, key).filter(key_is(key, k)) == s.push(x).filter(key_is(key, k)),
    decreases s.len(),
{
    let p = key_is(key, k);
    if s.len() == 0 || key(s.last()) <= key(x) {
    } else {
        let d = s.drop_last();
        let l = s.last();
        lemma_insert_by_filter(d, x, key, k);
        insert_by(d, x, key).lemma_filter_push(l, p);
        d.lemma_filter_push(x, p);
        d.push(l).lemma_filter_push(x, p);
        d.push(x).lemma_filter_push(l, p);
        d.lemma_filter_push(l, p);
        assert(d.push(l) =~= s);
        assert(!(p(x) && p(l)));
        assert(insert_by(d, x, key).push(l).filter(p) =~= s.push(x).filter(p));
    }
}

/// The sort is stable: for every key, the elements with that key come out in
/// the order they came in.
pub proof fn lemma_sort_by_stable<T>(s: Seq<T>, key: spec_fn(T) -> int, k: int)
    ensures
        sort_by(s, key).filter(key_is(key, k)) == s.filter(key_is(key, k)),
    decreases s.len(),
{
    if s.len() > 0 {
        let d = s.drop_last();
        lemma_sort_by_stable(d, key, k);
        lemma_insert_by_filter(sort_by(d, key), s.last(), key, k);
        sort_by(d, key).lemma_filter_push(s.last(), key_is(key, k));
        d.lemma_filter_push(s.last(), key_is(key, k));
        assert(d.push(s.last()) =~= s);
    }
}

proof fn lemma_insert_by_filter_len<T>(s: Seq<T>, x: T, key: spec_fn(T) -> int, p: spec_fn(T) -> bool)
    ensures
        insert_by(s, x, key).filter(p).len() == s.filter(p).len() + (if p(x) { 1int } else { 0int }),
    decreases s.len(),
{
    if s.len() == 0 || key(s.last()) <= key(x) {
        s.lemma_filter_push(x, p);
    } else {
        let d = s.drop_last();
        lemma_insert_by_filter_len(d, x, key, p);
        insert_by(d, x, key).lemma_filter_push(s.last(), p);
        d.lemma_filter_push(s.last(), p);
        assert(d.push(s.last()) =~= s);
    }
}

/// Sorting keeps how many elements satisfy any predicate.
pub proof fn lemma_sort_by_filter_len<T>(s: Seq<T>, key: spec_fn(T) -> int, p: spec_fn(T) -> bool)
    ensures
        sort_by(s, key).filter(p).len() == s.filter(p).len(),
    decreases s.len(),
{
    if s.len() > 0 {
        let d = s.drop_last();
        lemma_sort_by_filter_len(d, key, p);
        lemma_insert_by_filter_len(sort_by(d, key), s.last(), key, p);
        d.lemma_filter_push(s.last(), p);
        assert(d.push(s.last()) =~= s);
    } else {
        assert(sort_by(s, key) == s);
    }
}

pub open spec fn int_key() -> spec_fn(i64) -> int {
    |x: i64| x as int
}

/// The integers of `v` in ascending order.
pub fn sort_i64(v: &Vec<i64>) -> (r: Vec<i64>)
    ensures
        r@ == sort_by(v@, int_key()),
{
    let mut out: Vec<i64> = Vec::new();
    let mut k: usize = 0;
    while k < v.len()
        invariant
            k <= v@.len(),
            out@ == sort_by(v@.take(k as int), int_key()),
        decreases v@.len() - k,
    {
        let x = v[k];
        let mut j: usize = out.len();
        while j > 0 && out[j - 1] > x
            invariant
                j <= out@.len(),
                forall|i: int| j <= i < out@.len() ==> #[trigger] out@[i] > x,
            decreases j,
        {
            j -= 1;
        }
        proof {
            assert(v@.take(k + 1).drop_last() =~= v@.take(k as int));
            assert(v@.take(k + 1).last() == x);
            lemma_insert_by_at(out@, x, int_key(), j as int);
        }
        out.insert(j, x);
        k += 1;
    }
    proof {
        assert(v@.take(v@.len() as int) =~= v@);
    }
    out
}

} // verus!
