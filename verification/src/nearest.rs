//! What "the five nearest references" means, independently of how a search
//! finds them, and the facts every search relies on.
//!
//! Candidates are identified by their index; `dist` gives the squared distance
//! of each candidate to the query. Candidates are ordered by distance, and
//! equal distances are broken in favour of the lower index.
use vstd::prelude::*;

verus! {

/// Lexicographic order on `(distance, index)` keys.
pub open spec fn key_less(da: int, ia: int, db: int, ib: int) -> bool {
    da < db || (da == db && ia < ib)
}

/// Candidate `a` ranks before candidate `b`.
pub open spec fn closer(dist: spec_fn(int) -> int, a: int, b: int) -> bool {
    key_less(dist(a), a, dist(b), b)
}

/// `top` lists, nearest first, the candidates of `seen` that rank among the
/// first five: every other candidate of `seen` ranks after all five of them.
pub open spec fn is_nearest_five(dist: spec_fn(int) -> int, seen: Set<int>, top: Seq<int>) -> bool {
    &&& top.len() <= 5
    &&& forall|k: int| 0 <= k < top.len() ==> seen.contains(#[trigger] top[k])
    &&& forall|a: int, b: int|
        0 <= a < b < top.len() ==> closer(dist, #[trigger] top[a], #[trigger] top[b])
    &&& forall|j: int|
        #[trigger] seen.contains(j) && !top.contains(j) ==> top.len() == 5 && closer(dist, top[4], j)
}

/// The indices `0 .. n`.
pub open spec fn index_range(n: int) -> Set<int> {
    Set::new(|i: int| 0 <= i < n)
}

/// The (up to) five candidates among `0 .. n` nearest under `dist`, nearest first.
pub open spec fn nearest_five(dist: spec_fn(int) -> int, n: int) -> Seq<int> {
    choose|top: Seq<int>| is_nearest_five(dist, index_range(n), top)
}

/// Sum of the labels of the listed candidates.
pub open spec fn label_sum(labels: Seq<u8>, top: Seq<int>) -> int
    decreases top.len(),
{
    if top.len() == 0 {
        0
    } else {
        label_sum(labels, top.drop_last()) + labels[top.last()]
    }
}

/// Number of entries of `top` that rank before candidate `j`.
pub open spec fn count_closer(dist: spec_fn(int) -> int, top: Seq<int>, j: int) -> nat
    decreases top.len(),
{
    if top.len() == 0 {
        0
    } else {
        count_closer(dist, top.drop_last(), j) + if closer(dist, top.last(), j) { 1nat } else { 0nat }
    }
}

/// `top` with `j` put at position `pos`, cut back to five entries.
pub open spec fn insert_at(top: Seq<int>, pos: int, j: int) -> Seq<int> {
    let full = top.take(pos).push(j) + top.skip(pos);
    if full.len() > 5 { full.take(5) } else { full }
}

/// Two lists that are both the nearest five of the same candidates are equal.
pub proof fn lemma_nearest_unique(dist: spec_fn(int) -> int, seen: Set<int>, t1: Seq<int>, t2: Seq<int>)
    requires
        is_nearest_five(dist, seen, t1),
        is_nearest_five(dist, seen, t2),
    ensures
        t1 == t2,
{
    let m = if t1.len() <= t2.len() { t1.len() } else { t2.len() };
    lemma_agree_upto(dist, seen, t1, t2, m as int);
    if t1.len() < t2.len() {
        lemma_longer_has_extra(dist, seen, t1, t2);
    } else if t2.len() < t1.len() {
        lemma_longer_has_extra(dist, seen, t2, t1);
    }
    assert(t1 =~= t2);
}

proof fn lemma_longer_has_extra(dist: spec_fn(int) -> int, seen: Set<int>, t1: Seq<int>, t2: Seq<int>)
    requires
        is_nearest_five(dist, seen, t1),
        is_nearest_five(dist, seen, t2),
        t1.len() <= t2.len(),
        forall|i: int| 0 <= i < t1.len() ==> t1[i] == t2[i],
    ensures
        t1.len() == t2.len(),
{
    if t1.len() == t2.len() {
        return;
    }
    let x = t2[t1.len() as int];
    assert(seen.contains(x));
    if t1.contains(x) {
        let q = choose|q: int| 0 <= q < t1.len() && t1[q] == x;
        assert(closer(dist, t2[q], t2[t1.len() as int]));
    }
}

proof fn lemma_agree_upto(dist: spec_fn(int) -> int, seen: Set<int>, t1: Seq<int>, t2: Seq<int>, m: int)
    requires
        is_nearest_five(dist, seen, t1),
        is_nearest_five(dist, seen, t2),
        0 <= m <= t1.len(),
        m <= t2.len(),
    ensures
        forall|i: int| 0 <= i < m ==> t1[i] == t2[i],
    decreases m,
{
    if m > 0 {
        lemma_agree_upto(dist, seen, t1, t2, m - 1);
        let k = m - 1;
        if t1[k] != t2[k] {
            if closer(dist, t1[k], t2[k]) {
                lemma_missing_smaller(dist, seen, t1, t2, k);
            } else {
                lemma_missing_smaller(dist, seen, t2, t1, k);
            }
        }
    }
}

/// Where two nearest-five lists agree before `k`, `t1[k]` cannot rank before `t2[k]`.
proof fn lemma_missing_smaller(dist: spec_fn(int) -> int, seen: Set<int>, t1: Seq<int>, t2: Seq<int>, k: int)
    requires
        is_nearest_five(dist, seen, t1),
        is_nearest_five(dist, seen, t2),
        0 <= k < t1.len(),
        k < t2.len(),
        forall|i: int| 0 <= i < k ==> t1[i] == t2[i],
    ensures
        !closer(dist, t1[k], t2[k]),
{
    if !closer(dist, t1[k], t2[k]) {
        return;
    }
    let a = t1[k];
    assert(seen.contains(a));
    if t2.contains(a) {
        let q = choose|q: int| 0 <= q < t2.len() && t2[q] == a;
        if q < k {
            assert(closer(dist, t1[q], t1[k]));
        } else if q > k {
            assert(closer(dist, t2[k], t2[q]));
        }
    } else {
        if k < 4 {
            assert(closer(dist, t2[k], t2[4]));
        }
    }
}

/// Every finite range of candidates has a nearest five.
pub proof fn lemma_nearest_exists(dist: spec_fn(int) -> int, n: int)
    requires
        0 <= n,
    ensures
        is_nearest_five(dist, index_range(n), nearest_five(dist, n)),
    decreases n,
{
    if n == 0 {
        let empty = Seq::<int>::empty();
        assert(is_nearest_five(dist, index_range(0), empty));
    } else {
        lemma_nearest_exists(dist, n - 1);
        let top = nearest_five(dist, n - 1);
        let j = n - 1;
        assert(index_range(n) =~= index_range(n - 1).insert(j));
        assert(!index_range(n - 1).contains(j));
        if top.len() == 5 && closer(dist, top[4], j) {
            lemma_add_far(dist, index_range(n - 1), top, j);
            assert(is_nearest_five(dist, index_range(n), top));
        } else {
            let pos = count_closer(dist, top, j) as int;
            lemma_count_closer_splits(dist, top, j);
            lemma_insert_nearest(dist, index_range(n - 1), top, j, pos);
            assert(is_nearest_five(dist, index_range(n), insert_at(top, pos, j)));
        }
    }
}

/// In a sorted list, the entries that rank before `j` form a prefix.
proof fn lemma_count_closer_splits(dist: spec_fn(int) -> int, top: Seq<int>, j: int)
    requires
        forall|a: int, b: int| 0 <= a < b < top.len() ==> closer(dist, #[trigger] top[a], #[trigger] top[b]),
        !top.contains(j),
    ensures
        count_closer(dist, top, j) <= top.len(),
        forall|k: int| 0 <= k < count_closer(dist, top, j) ==> closer(dist, #[trigger] top[k], j),
        forall|k: int| count_closer(dist, top, j) <= k < top.len() ==> closer(dist, j, #[trigger] top[k]),
    decreases top.len(),
{
    if top.len() > 0 {
        let init = top.drop_last();
        assert forall|a: int, b: int| 0 <= a < b < init.len() implies closer(dist, #[trigger] init[a], #[trigger] init[b]) by {
            assert(init[a] == top[a] && init[b] == top[b]);
        }
        assert(!init.contains(j)) by {
            if init.contains(j) {
                let q = choose|q: int| 0 <= q < init.len() && init[q] == j;
                assert(top[q] == j);
            }
        }
        lemma_count_closer_splits(dist, init, j);
        let c = count_closer(dist, init, j);
        let last = top.len() - 1;
        assert(top[last] != j);
        if closer(dist, top.last(), j) {
            assert forall|k: int| 0 <= k < c + 1 implies closer(dist, #[trigger] top[k], j) by {
                if k < c {
                    assert(init[k] == top[k]);
                }
            }
            if c < last {
                assert(closer(dist, j, init[c as int]));
                assert(closer(dist, top[c as int], top[last]));
            }
        } else {
            assert forall|k: int| 0 <= k < c implies closer(dist, #[trigger] top[k], j) by {
                assert(init[k] == top[k]);
            }
            assert forall|k: int| c <= k < top.len() implies closer(dist, j, #[trigger] top[k]) by {
                if k < last {
                    assert(init[k] == top[k]);
                }
            }
        }
    }
}

/// Adding a candidate that ranks after the fifth leaves the nearest five unchanged.
pub proof fn lemma_add_far(dist: spec_fn(int) -> int, seen: Set<int>, top: Seq<int>, j: int)
    requires
        is_nearest_five(dist, seen, top),
        top.len() == 5,
        closer(dist, top[4], j),
    ensures
        is_nearest_five(dist, seen.insert(j), top),
{
    assert forall|x: int| #[trigger] seen.insert(j).contains(x) && !top.contains(x) implies top.len() == 5
        && closer(dist, top[4], x) by {
        if x != j {
            assert(seen.contains(x));
        }
    }
}

/// Adding a set of candidates that all rank after the fifth leaves the nearest five unchanged.
pub proof fn lemma_add_far_set(dist: spec_fn(int) -> int, seen: Set<int>, top: Seq<int>, extra: Set<int>)
    requires
        is_nearest_five(dist, seen, top),
        forall|j: int| #[trigger] extra.contains(j) ==> top.len() == 5 && closer(dist, top[4], j),
    ensures
        is_nearest_five(dist, seen.union(extra), top),
{
    assert forall|x: int| #[trigger] seen.union(extra).contains(x) && !top.contains(x) implies top.len() == 5
        && closer(dist, top[4], x) by {
        if !extra.contains(x) {
            assert(seen.contains(x));
        }
    }
}

/// Putting a new candidate at its rank keeps the list the nearest five.
pub proof fn lemma_insert_nearest(dist: spec_fn(int) -> int, seen: Set<int>, top: Seq<int>, j: int, pos: int)
    requires
        is_nearest_five(dist, seen, top),
        !seen.contains(j),
        0 <= pos <= top.len(),
        pos <= 4,
        forall|k: int| 0 <= k < pos ==> closer(dist, #[trigger] top[k], j),
        forall|k: int| pos <= k < top.len() ==> closer(dist, j, #[trigger] top[k]),
    ensures
        is_nearest_five(dist, seen.insert(j), insert_at(top, pos, j)),
        insert_at(top, pos, j).len() == if top.len() < 5 { top.len() + 1 } else { 5 },
{
    let full = top.take(pos).push(j) + top.skip(pos);
    let nt = insert_at(top, pos, j);
    assert(full.len() == top.len() + 1);
    assert forall|k: int| 0 <= k < full.len() implies #[trigger] full[k] == if k < pos { top[k] } else if k == pos { j } else { top[k - 1] } by {
        if k < pos {
            assert(full[k] == top.take(pos)[k]);
        } else if k > pos {
            assert(full[k] == top.skip(pos)[k - pos - 1]);
        }
    }
    assert forall|k: int| 0 <= k < nt.len() implies seen.insert(j).contains(#[trigger] nt[k]) by {
        assert(nt[k] == full[k]);
    }
    assert forall|a: int, b: int| 0 <= a < b < nt.len() implies closer(dist, #[trigger] nt[a], #[trigger] nt[b]) by {
        assert(nt[a] == full[a] && nt[b] == full[b]);
        if a < pos && b < pos {
        } else if a < pos && b == pos {
        } else if a < pos {
            assert(closer(dist, top[a], top[b - 1]));
        } else if a == pos {
        } else {
            assert(closer(dist, top[a - 1], top[b - 1]));
        }
    }
    assert forall|x: int| #[trigger] seen.insert(j).contains(x) && !nt.contains(x) implies nt.len() == 5
        && closer(dist, nt[4], x) by {
        if x == j {
            assert(nt[pos] == full[pos]);
        } else {
            assert(seen.contains(x));
            if top.contains(x) {
                let q = choose|q: int| 0 <= q < top.len() && top[q] == x;
                if q < pos {
                    assert(nt[q] == full[q]);
                } else if q + 1 < nt.len() {
                    assert(nt[q + 1] == full[q + 1]);
                } else {
                    assert(q == 4);
                    assert(nt[4] == full[4]);
                    if pos < 4 {
                        assert(closer(dist, top[3], top[4]));
                    }
                }
            } else {
                assert(nt[4] == full[4]);
                if pos < 4 {
                    assert(full[4] == top[3]);
                    assert(closer(dist, top[3], top[4]));
                } else {
                    assert(closer(dist, j, top[4]));
                }
            }
        }
    }
}

/// Lists that are the nearest five under distances that agree on `0 .. n` coincide.
pub proof fn lemma_nearest_same_distances(d1: spec_fn(int) -> int, d2: spec_fn(int) -> int, n: int)
    requires
        0 <= n,
        forall|i: int| 0 <= i < n ==> #[trigger] d1(i) == d2(i),
    ensures
        nearest_five(d1, n) == nearest_five(d2, n),
{
    lemma_nearest_exists(d1, n);
    lemma_nearest_exists(d2, n);
    let t1 = nearest_five(d1, n);
    let t2 = nearest_five(d2, n);
    assert(is_nearest_five(d2, index_range(n), t1)) by {
        assert forall|a: int, b: int| 0 <= a < b < t1.len() implies closer(d2, #[trigger] t1[a], #[trigger] t1[b]) by {
            assert(index_range(n).contains(t1[a]) && index_range(n).contains(t1[b]));
            assert(closer(d1, t1[a], t1[b]));
        }
        assert forall|j: int| #[trigger] index_range(n).contains(j) && !t1.contains(j) implies t1.len() == 5
            && closer(d2, t1[4], j) by {
            assert(index_range(n).contains(t1[4]));
        }
    }
    lemma_nearest_unique(d2, index_range(n), t1, t2);
}

} // verus!
