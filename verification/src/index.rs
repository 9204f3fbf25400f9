//! Quantized reference vectors and the exact five-nearest-neighbour decision.
use vstd::prelude::*;

use crate::distance::{
    gap_fits, lemma_distance_bounds, lemma_square_gap_nonneg, pair_fits, partial_squared_distance,
    square_gap, squared_distance_fn, squared_distance_of,
};
use crate::nearest::{
    closer, index_range, insert_at, is_nearest_five, key_less, label_sum, lemma_add_far,
    lemma_add_far_set, lemma_insert_nearest, lemma_nearest_exists, lemma_nearest_same_distances,
    lemma_nearest_unique, nearest_five,
};

verus! {

/// Number of meaningful coordinates of a vector.
pub const DIMS: usize = 14;
/// Stored length of a quantized vector (two coordinates of padding).
pub const PADDED_DIMS: usize = 16;
/// A vector whose coordinates were scaled by 10 000 and rounded.
pub type QuantizedVector = [i16; PADDED_DIMS];

/// `left` / `right` value of a kd-tree node that has no children.
pub const KD_LEAF: u32 = 4294967295u32;
/// A kd-tree node with more entries than this is split.
pub const KD_LEAF_SIZE: usize = 64;
pub(crate) const KD_STACK_CAPACITY: usize = 128;

/// A node of the kd-tree stored in an index file: the entries `start .. end`
/// and their bounding box; `left` and `right` are child node indices, or
/// `KD_LEAF` for a leaf.
#[derive(Debug, Clone, Copy)]
pub struct KdNode {
    pub start: u32,
    pub end: u32,
    pub left: u32,
    pub right: u32,
    pub min: [i16; DIMS],
    pub max: [i16; DIMS],
}

/// The outcome for one transaction.
///
/// `fraud_count` of the five nearest references are frauds; the fraud score
/// is `fraud_count / 5`, and the transaction is approved when that score is
/// below 0.6, that is when fewer than three neighbours are frauds.
#[derive(Debug, Clone, Copy, PartialEq, Eq, Structural)]
pub struct Decision {
    pub approved: bool,
    pub fraud_count: u8,
}

impl Decision {
    pub open spec fn with_fraud_count(fraud_count: u8) -> Decision {
        Decision { approved: fraud_count < 3, fraud_count }
    }

    /// The decision for `fraud_count` fraudulent neighbours out of five.
    pub fn from_fraud_count(fraud_count: u8) -> (d: Self)
        ensures
            d == Self::with_fraud_count(fraud_count),
    {
        Self { approved: fraud_count < 3, fraud_count }
    }

    /// The decision used when a request cannot be scored: approve, score 0.
    pub fn safe_fallback() -> (d: Self)
        ensures
            d == Self::with_fraud_count(0),
    {
        Self::from_fraud_count(0)
    }
}

/// Quantized reference vectors with their labels (1 for fraud, 0 for legitimate).
#[derive(Debug)]
pub struct ReferenceIndex {
    vectors: Vec<QuantizedVector>,
    labels: Vec<u8>,
}

impl Clone for ReferenceIndex {
    fn clone(&self) -> (r: Self)
        ensures
            r.vectors_view() == self.vectors_view(),
            r.labels_view() == self.labels_view(),
    {
        proof {
            use_type_invariant(self);
        }
        let mut vectors: Vec<QuantizedVector> = Vec::new();
        let mut i: usize = 0;
        while i < self.vectors.len()
            invariant
                i <= self.vectors@.len(),
                vectors@ == self.vectors@.take(i as int),
            decreases self.vectors@.len() - i,
        {
            vectors.push(self.vectors[i]);
            proof {
                assert(vectors@ =~= self.vectors@.take(i + 1));
            }
            i = i + 1;
        }
        let mut labels: Vec<u8> = Vec::new();
        labels.extend_from_slice(self.labels.as_slice());
        proof {
            assert(vectors@ =~= self.vectors@);
            assert(labels@ =~= self.labels@);
        }
        ReferenceIndex { vectors, labels }
    }
}

impl ReferenceIndex {
    /// The vectors, in the order they were given.
    pub closed spec fn vectors_view(&self) -> Seq<QuantizedVector> {
        self.vectors@
    }

    /// The labels, in the order they were given.
    pub closed spec fn labels_view(&self) -> Seq<u8> {
        self.labels@
    }

    /// Every vector has its label.
    #[verifier::type_invariant]
    spec fn well_formed(&self) -> bool {
        self.vectors@.len() == self.labels@.len()
    }

    /// Builds an index from quantized vectors and their labels, which must be as many.
    pub fn from_quantized(vectors: Vec<QuantizedVector>, labels: Vec<u8>) -> (r: Self)
        requires
            vectors@.len() == labels@.len(),
        ensures
            r.vectors_view() == vectors@,
            r.labels_view() == labels@,
    {
        Self { vectors, labels }
    }

    pub fn len(&self) -> (n: usize)
        ensures
            n == self.vectors_view().len(),
            n == self.labels_view().len(),
    {
        proof {
            use_type_invariant(self);
        }
        self.vectors.len()
    }

    pub fn is_empty(&self) -> (b: bool)
        ensures
            b == (self.vectors_view().len() == 0),
    {
        self.vectors.len() == 0
    }

    pub fn vectors(&self) -> (v: &[QuantizedVector])
        ensures
            v@ == self.vectors_view(),
    {
        self.vectors.as_slice()
    }

    pub fn labels(&self) -> (l: &[u8])
        ensures
            l@ == self.labels_view(),
    {
        self.labels.as_slice()
    }

    /// The decision of the five references nearest to `query`.
    pub fn decide_quantized(&self, query: &QuantizedVector) -> (d: Decision)
        requires
            rows_fit(query@, self.vectors_view()),
            label_sum(self.labels_view(), nearest_five(row_distance(query@, self.vectors_view()),
                self.vectors_view().len() as int)) <= 255,
        ensures
            d == nearest_decision(self.labels_view(), nearest_five(row_distance(query@,
                self.vectors_view()), self.vectors_view().len() as int)),
    {
        proof {
            use_type_invariant(self);
        }
        decide_from_slices(query, self.vectors.as_slice(), self.labels.as_slice())
    }
}

/// Squared distance from `query` to the reference at each index.
pub open spec fn row_distance(query: Seq<i16>, vectors: Seq<QuantizedVector>) -> spec_fn(int) -> int {
    |i: int| squared_distance_of(query, vectors[i]@)
}

/// Every reference's coordinate gaps to `query` square within `i32`.
pub open spec fn rows_fit(query: Seq<i16>, vectors: Seq<QuantizedVector>) -> bool {
    forall|i: int| 0 <= i < vectors.len() ==> pair_fits(query, #[trigger] vectors[i]@)
}

/// The decision of the listed neighbours.
pub open spec fn nearest_decision(labels: Seq<u8>, top: Seq<int>) -> Decision {
    Decision::with_fraud_count(label_sum(labels, top) as u8)
}

/// The best-five arrays hold `top`, nearest first, followed by empty slots.
pub open spec fn holds_top(
    best_distances: Seq<i64>,
    best_indices: Seq<usize>,
    best_labels: Seq<u8>,
    top: Seq<int>,
    dist: spec_fn(int) -> int,
    labels: Seq<u8>,
) -> bool {
    &&& best_distances.len() == 5 && best_indices.len() == 5 && best_labels.len() == 5
    &&& top.len() <= 5
    &&& forall|k: int| 0 <= k < top.len() ==> {
        &&& best_distances[k] == dist(#[trigger] top[k])
        &&& best_indices[k] == top[k]
        &&& best_labels[k] == labels[top[k]]
    }
    &&& forall|k: int| top.len() <= k < 5 ==> {
        &&& #[trigger] best_distances[k] == i64::MAX
        &&& best_indices[k] == usize::MAX
        &&& best_labels[k] == 0
    }
}

/// Candidates `0 .. n` have real distances, below the empty-slot marker.
pub open spec fn distances_bounded(dist: spec_fn(int) -> int, n: int) -> bool {
    &&& n <= usize::MAX
    &&& forall|i: int| 0 <= i < n ==> 0 <= #[trigger] dist(i) < i64::MAX
}

/// Sum of the labels of the filled slots.
pub open spec fn filled_label_sum(best_distances: Seq<i64>, best_labels: Seq<u8>, k: nat) -> int
    decreases k,
{
    if k == 0 {
        0
    } else {
        filled_label_sum(best_distances, best_labels, (k - 1) as nat)
            + if best_distances[k - 1] != i64::MAX { best_labels[k - 1] as int } else { 0int }
    }
}

/// The arrays' slots holding `top` carry exactly the labels summed by `label_sum`.
proof fn lemma_filled_sum(
    best_distances: Seq<i64>,
    best_indices: Seq<usize>,
    best_labels: Seq<u8>,
    top: Seq<int>,
    dist: spec_fn(int) -> int,
    labels: Seq<u8>,
    k: nat,
)
    requires
        holds_top(best_distances, best_indices, best_labels, top, dist, labels),
        forall|i: int| 0 <= i < top.len() ==> #[trigger] dist(top[i]) < i64::MAX,
        k <= 5,
    ensures
        filled_label_sum(best_distances, best_labels, k) == label_sum(
            labels,
            if k < top.len() { top.take(k as int) } else { top },
        ),
    decreases k,
{
    if k > 0 {
        lemma_filled_sum(best_distances, best_indices, best_labels, top, dist, labels, (k - 1) as nat);
        if k <= top.len() {
            let t = top.take(k as int);
            assert(t.drop_last() =~= top.take(k - 1));
            assert(dist(top[k - 1]) < i64::MAX);
            if k == top.len() {
                assert(t =~= top);
            }
        } else {
            if k - 1 == top.len() {
                assert(top.take(k - 1) =~= top);
            }
        }
    }
}

/// `distance`/`index` ranks strictly before the slot `worst_distance`/`worst_index`.
fn is_better_candidate(distance: i64, index: usize, worst_distance: i64, worst_index: usize) -> (b: bool)
    ensures
        b == key_less(distance as int, index as int, worst_distance as int, worst_index as int),
{
    distance < worst_distance || (distance == worst_distance && index < worst_index)
}

/// `new` is `old` with `x` put at `pos` and the last entry dropped.
pub open spec fn shifted_in<T>(old: Seq<T>, new: Seq<T>, pos: int, x: T) -> bool {
    &&& new.len() == 5 && old.len() == 5
    &&& forall|k: int| 0 <= k < pos ==> #[trigger] new[k] == old[k]
    &&& new[pos] == x
    &&& forall|k: int| pos < k < 5 ==> #[trigger] new[k] == old[k - 1]
}

/// The slots `new` are the slots `old` with the candidate put at some `pos`:
/// the candidate ranks before every slot from `pos` on and not before slot `pos - 1`.
pub open spec fn inserted_slots(
    od: Seq<i64>,
    oi: Seq<usize>,
    ol: Seq<u8>,
    nd: Seq<i64>,
    ni: Seq<usize>,
    nl: Seq<u8>,
    distance: i64,
    index: usize,
    label: u8,
) -> bool {
    exists|pos: int| #[trigger] slot_position(od, oi, nd, ni, nl, ol, distance, index, label, pos)
}

pub open spec fn slot_position(
    od: Seq<i64>,
    oi: Seq<usize>,
    nd: Seq<i64>,
    ni: Seq<usize>,
    nl: Seq<u8>,
    ol: Seq<u8>,
    distance: i64,
    index: usize,
    label: u8,
    pos: int,
) -> bool {
    &&& 0 <= pos <= 4
    &&& pos > 0 ==> !key_less(distance as int, index as int, od[pos - 1] as int, oi[pos - 1] as int)
    &&& forall|k: int| pos <= k < 5 ==> key_less(distance as int, index as int,
        #[trigger] od[k] as int, oi[k] as int)
    &&& shifted_in(od, nd, pos, distance)
    &&& shifted_in(oi, ni, pos, index)
    &&& shifted_in(ol, nl, pos, label)
}

/// The best-five slots as (distance, index, label) triples.
pub open spec fn slot_triples(d: Seq<i64>, i: Seq<usize>, l: Seq<u8>) -> Seq<(i64, usize, u8)> {
    Seq::new(5, |k: int| (d[k], i[k], l[k]))
}

/// `a` ranks strictly before `b` by (distance, index).
pub open spec fn triple_less(a: (i64, usize, u8), b: (i64, usize, u8)) -> bool {
    key_less(a.0 as int, a.1 as int, b.0 as int, b.1 as int)
}

/// The triples are in non-decreasing (distance, index) order.
pub open spec fn triples_sorted(t: Seq<(i64, usize, u8)>) -> bool {
    forall|a: int, b: int| 0 <= a < b < t.len() ==> !triple_less(#[trigger] t[b], #[trigger] t[a])
}

/// Inserting a candidate that ranks before the fifth of five sorted slots keeps the five
/// smallest of the six by (distance, index), in order: the candidate joins the first four
/// slots, each keeping its label, and the old fifth slot, which ranks after all of them,
/// is dropped.
pub proof fn law_insert_keeps_five_smallest(
    od: Seq<i64>,
    oi: Seq<usize>,
    ol: Seq<u8>,
    nd: Seq<i64>,
    ni: Seq<usize>,
    nl: Seq<u8>,
    distance: i64,
    index: usize,
    label: u8,
)
    requires
        od.len() == 5 && oi.len() == 5 && ol.len() == 5,
        triples_sorted(slot_triples(od, oi, ol)),
        key_less(distance as int, index as int, od[4] as int, oi[4] as int),
        inserted_slots(od, oi, ol, nd, ni, nl, distance, index, label),
    ensures
        triples_sorted(slot_triples(nd, ni, nl)),
        slot_triples(nd, ni, nl).to_multiset() == slot_triples(od, oi, ol).drop_last().to_multiset().insert(
            (distance, index, label),
        ),
        forall|k: int| 0 <= k < 5 ==> !triple_less(slot_triples(od, oi, ol)[4], #[trigger] slot_triples(nd, ni, nl)[k]),
{
    let pos = choose|pos: int| #[trigger] slot_position(od, oi, nd, ni, nl, ol, distance, index, label, pos);
    let old_t = slot_triples(od, oi, ol);
    let new_t = slot_triples(nd, ni, nl);
    let x = (distance, index, label);
    assert forall|k: int| 0 <= k < 5 implies #[trigger] new_t[k] == if k < pos {
        old_t[k]
    } else if k == pos {
        x
    } else {
        old_t[k - 1]
    } by {}
    assert forall|a: int, b: int| 0 <= a < b < 5 implies !triple_less(#[trigger] new_t[b], #[trigger] new_t[a]) by {
        if b < pos {
            assert(!triple_less(old_t[b], old_t[a]));
        } else if b == pos {
            if a < pos - 1 {
                assert(!triple_less(old_t[pos - 1], old_t[a]));
            }
            assert(!triple_less(x, old_t[pos - 1]));
        } else if a < pos {
            assert(!triple_less(old_t[b - 1], old_t[a]));
        } else if a == pos {
            assert(triple_less(x, old_t[b - 1]));
        } else {
            assert(!triple_less(old_t[b - 1], old_t[a - 1]));
        }
    }
    assert forall|k: int| 0 <= k < 5 implies !triple_less(old_t[4], #[trigger] new_t[k]) by {
        if k < pos {
            assert(!triple_less(old_t[4], old_t[k]));
        } else if k > pos {
            assert(!triple_less(old_t[4], old_t[k - 1]));
        }
    }
    let front = old_t.take(pos);
    let back = old_t.subrange(pos, 4);
    assert(new_t =~= front + seq![x] + back);
    assert(old_t.drop_last() =~= front + back);
    vstd::seq_lib::lemma_multiset_commutative(front + seq![x], back);
    vstd::seq_lib::lemma_multiset_commutative(front, seq![x]);
    vstd::seq_lib::lemma_multiset_commutative(front, back);
    broadcast use vstd::seq_lib::group_to_multiset_ensures;
    assert(seq![x].to_multiset() =~= vstd::multiset::Multiset::empty().insert(x)) by {
        assert(seq![x] =~= Seq::<(i64, usize, u8)>::empty().push(x));
    }
}

/// Inserts a candidate that ranks before the fifth slot, shifting later slots down.
fn insert_best(
    distance: i64,
    index: usize,
    label: u8,
    best_distances: &mut [i64; 5],
    best_indices: &mut [usize; 5],
    best_labels: &mut [u8; 5],
)
    requires
        key_less(distance as int, index as int, old(best_distances)[4] as int, old(best_indices)[4] as int),
    ensures
        inserted_slots(old(best_distances)@, old(best_indices)@, old(best_labels)@,
            final(best_distances)@, final(best_indices)@, final(best_labels)@, distance, index, label),
{
    let ghost od = best_distances@;
    let ghost oi = best_indices@;
    let ghost ol = best_labels@;
    let mut position: usize = 4;
    while position > 0 && is_better_candidate(
        distance,
        index,
        best_distances[position - 1],
        best_indices[position - 1],
    )
        invariant
            position <= 4,
            od.len() == 5 && oi.len() == 5 && ol.len() == 5,
            best_distances@.len() == 5 && best_indices@.len() == 5 && best_labels@.len() == 5,
            forall|k: int| 0 <= k <= position ==> #[trigger] best_distances@[k] == od[k],
            forall|k: int| 0 <= k <= position ==> #[trigger] best_indices@[k] == oi[k],
            forall|k: int| 0 <= k <= position ==> #[trigger] best_labels@[k] == ol[k],
            forall|k: int| position < k < 5 ==> #[trigger] best_distances@[k] == od[k - 1],
            forall|k: int| position < k < 5 ==> #[trigger] best_indices@[k] == oi[k - 1],
            forall|k: int| position < k < 5 ==> #[trigger] best_labels@[k] == ol[k - 1],
            forall|k: int| position <= k < 5 ==> key_less(distance as int, index as int,
                #[trigger] od[k] as int, oi[k] as int),
        decreases position,
    {
        best_distances[position] = best_distances[position - 1];
        best_indices[position] = best_indices[position - 1];
        best_labels[position] = best_labels[position - 1];
        position -= 1;
    }
    best_distances[position] = distance;
    best_indices[position] = index;
    best_labels[position] = label;
    assert(slot_position(od, oi, best_distances@, best_indices@, best_labels@, ol, distance, index,
        label, position as int));
}

/// After `insert_best`, the slots hold the nearest five of the candidates seen so far and `j`.
proof fn lemma_inserted(
    od: Seq<i64>,
    oi: Seq<usize>,
    ol: Seq<u8>,
    nd: Seq<i64>,
    ni: Seq<usize>,
    nl: Seq<u8>,
    top: Seq<int>,
    dist: spec_fn(int) -> int,
    labels: Seq<u8>,
    seen: Set<int>,
    j: int,
    n: int,
) -> (new_top: Seq<int>)
    requires
        holds_top(od, oi, ol, top, dist, labels),
        is_nearest_five(dist, seen, top),
        !seen.contains(j),
        0 <= j < n,
        j < labels.len(),
        distances_bounded(dist, n),
        inserted_slots(od, oi, ol, nd, ni, nl, dist(j) as i64, j as usize, labels[j]),
    ensures
        holds_top(nd, ni, nl, new_top, dist, labels),
        is_nearest_five(dist, seen.insert(j), new_top),
{
    let pos = choose|pos: int| #[trigger] slot_position(od, oi, nd, ni, nl, ol, dist(j) as i64,
        j as usize, labels[j], pos);
    let e_d = dist(j);
    assert(0 <= e_d < i64::MAX);
    assert(pos <= top.len()) by {
        if pos > top.len() {
            let k = top.len() as int;
            assert(od[k] == i64::MAX);
        }
    }
    assert(!top.contains(j)) by {
        if top.contains(j) {
            let q = choose|q: int| 0 <= q < top.len() && top[q] == j;
            assert(seen.contains(top[q]));
        }
    }
    assert forall|k: int| pos <= k < top.len() implies closer(dist, j, #[trigger] top[k]) by {
        assert(key_less(e_d, j, od[k] as int, oi[k] as int));
    }
    assert forall|k: int| 0 <= k < pos implies closer(dist, #[trigger] top[k], j) by {
        let last = pos - 1;
        assert(!key_less(e_d, j, od[last] as int, oi[last] as int));
        assert(top[last] != j);
        if k < last {
            assert(closer(dist, top[k], top[last]));
        }
    }
    lemma_insert_nearest(dist, seen, top, j, pos);
    let new_top = insert_at(top, pos, j);
    let full = top.take(pos).push(j) + top.skip(pos);
    assert forall|k: int| 0 <= k < full.len() implies #[trigger] full[k] == if k < pos { top[k] } else if k == pos { j } else { top[k - 1] } by {
        if k < pos {
            assert(full[k] == top.take(pos)[k]);
        } else if k > pos {
            assert(full[k] == top.skip(pos)[k - pos - 1]);
        }
    }
    assert forall|k: int| 0 <= k < new_top.len() implies {
        &&& nd[k] == dist(#[trigger] new_top[k])
        &&& ni[k] == new_top[k]
        &&& nl[k] == labels[new_top[k]]
    } by {
        assert(new_top[k] == full[k]);
    }
    assert forall|k: int| new_top.len() <= k < 5 implies {
        &&& #[trigger] nd[k] == i64::MAX
        &&& ni[k] == usize::MAX
        &&& nl[k] == 0
    } by {
        assert(k > pos);
    }
    assert(holds_top(nd, ni, nl, new_top, dist, labels));
    new_top
}

/// A candidate that does not rank before the fifth slot leaves the nearest five unchanged.
proof fn lemma_not_inserted(
    bd: Seq<i64>,
    bi: Seq<usize>,
    bl: Seq<u8>,
    top: Seq<int>,
    dist: spec_fn(int) -> int,
    labels: Seq<u8>,
    seen: Set<int>,
    j: int,
    n: int,
)
    requires
        holds_top(bd, bi, bl, top, dist, labels),
        is_nearest_five(dist, seen, top),
        0 <= j < n,
        distances_bounded(dist, n),
        !key_less(dist(j), j, bd[4] as int, bi[4] as int),
    ensures
        is_nearest_five(dist, seen.insert(j), top),
{
    if top.len() < 5 {
        assert(bd[4] == i64::MAX);
    }
    assert(top.len() == 5);
    if top[4] == j {
        lemma_add_far_same(dist, seen, top, j);
    } else {
        lemma_add_far(dist, seen, top, j);
    }
}

proof fn lemma_add_far_same(dist: spec_fn(int) -> int, seen: Set<int>, top: Seq<int>, j: int)
    requires
        is_nearest_five(dist, seen, top),
        top.len() == 5,
        top[4] == j,
    ensures
        is_nearest_five(dist, seen.insert(j), top),
{
    assert(seen.insert(j) =~= seen);
}

/// Monotonicity of the partial sums of filled labels.
proof fn lemma_filled_sum_monotone(bd: Seq<i64>, bl: Seq<u8>, a: nat, b: nat)
    requires
        a <= b,
    ensures
        filled_label_sum(bd, bl, a) <= filled_label_sum(bd, bl, b),
    decreases b - a,
{
    if a < b {
        lemma_filled_sum_monotone(bd, bl, a, (b - 1) as nat);
    }
}

/// Counts the fraud labels in the filled slots.
fn decision_from_best(best_distances: &[i64; 5], best_labels: &[u8; 5]) -> (d: Decision)
    requires
        filled_label_sum(best_distances@, best_labels@, 5) <= 255,
    ensures
        d == Decision::with_fraud_count(filled_label_sum(best_distances@, best_labels@, 5) as u8),
{
    let mut fraud_count: u8 = 0;
    let mut k: usize = 0;
    while k < 5
        invariant
            k <= 5,
            fraud_count == filled_label_sum(best_distances@, best_labels@, k as nat),
            filled_label_sum(best_distances@, best_labels@, 5) <= 255,
        decreases 5 - k,
    {
        proof {
            lemma_filled_sum_monotone(best_distances@, best_labels@, (k + 1) as nat, 5);
        }
        if best_distances[k] != i64::MAX {
            fraud_count = fraud_count + best_labels[k];
        }
        k = k + 1;
    }
    Decision::from_fraud_count(fraud_count)
}

/// Final step shared by every search: the slots hold the nearest five of all `n` candidates.
proof fn lemma_final_decision(
    bd: Seq<i64>,
    bi: Seq<usize>,
    bl: Seq<u8>,
    top: Seq<int>,
    dist: spec_fn(int) -> int,
    labels: Seq<u8>,
    n: int,
)
    requires
        holds_top(bd, bi, bl, top, dist, labels),
        is_nearest_five(dist, index_range(n), top),
        distances_bounded(dist, n),
    ensures
        top == nearest_five(dist, n),
        filled_label_sum(bd, bl, 5) == label_sum(labels, top),
{
    lemma_nearest_unique(dist, index_range(n), top, nearest_five(dist, n));
    assert forall|i: int| 0 <= i < top.len() implies #[trigger] dist(top[i]) < i64::MAX by {
        assert(index_range(n).contains(top[i]));
    }
    lemma_filled_sum(bd, bi, bl, top, dist, labels, 5);
}

/// Row distances of references whose gaps fit are real distances.
proof fn lemma_rows_bounded(query: Seq<i16>, vectors: Seq<QuantizedVector>)
    requires
        rows_fit(query, vectors),
        vectors.len() <= usize::MAX,
    ensures
        distances_bounded(row_distance(query, vectors), vectors.len() as int),
{
    assert forall|i: int| 0 <= i < vectors.len() implies 0 <= #[trigger] row_distance(query, vectors)(i) < i64::MAX by {
        lemma_distance_bounds(query, vectors[i]@, 14);
    }
}

/// The empty slots the searches start from.
proof fn lemma_empty_slots(dist: spec_fn(int) -> int, labels: Seq<u8>, bd: Seq<i64>, bi: Seq<usize>, bl: Seq<u8>)
    requires
        bd.len() == 5 && bi.len() == 5 && bl.len() == 5,
        forall|k: int| 0 <= k < 5 ==> #[trigger] bd[k] == i64::MAX && bi[k] == usize::MAX && bl[k] == 0,
    ensures
        holds_top(bd, bi, bl, Seq::empty(), dist, labels),
        is_nearest_five(dist, Set::empty(), Seq::empty()),
{
}

/// The decision of the five references nearest to `query` (exhaustive scan).
///
/// Candidates are ranked by squared distance, ties going to the lower index.
pub fn decide_from_slices(query: &QuantizedVector, vectors: &[QuantizedVector], labels: &[u8]) -> (d: Decision)
    requires
        vectors@.len() == labels@.len(),
        rows_fit(query@, vectors@),
        label_sum(labels@, nearest_five(row_distance(query@, vectors@), vectors@.len() as int)) <= 255,
    ensures
        d == nearest_decision(labels@, nearest_five(row_distance(query@, vectors@), vectors@.len() as int)),
{
    let mut best_distances: [i64; 5] = [i64::MAX, i64::MAX, i64::MAX, i64::MAX, i64::MAX];
    let mut best_indices: [usize; 5] = [usize::MAX, usize::MAX, usize::MAX, usize::MAX, usize::MAX];
    let mut best_labels: [u8; 5] = [0, 0, 0, 0, 0];
    let distance_fn = squared_distance_fn();
    let ghost dist = row_distance(query@, vectors@);
    let ghost mut top: Seq<int> = Seq::empty();
    let n = vectors.len();
    proof {
        lemma_rows_bounded(query@, vectors@);
        lemma_empty_slots(dist, labels@, best_distances@, best_indices@, best_labels@);
        assert(index_range(0) =~= Set::<int>::empty());
    }
    let mut idx: usize = 0;
    while idx < n
        invariant
            idx <= n,
            n == vectors@.len(),
            n == labels@.len(),
            dist == row_distance(query@, vectors@),
            rows_fit(query@, vectors@),
            distances_bounded(dist, n as int),
            holds_top(best_distances@, best_indices@, best_labels@, top, dist, labels@),
            is_nearest_five(dist, index_range(idx as int), top),
        decreases n - idx,
    {
        let distance = distance_fn.call(query, &vectors[idx]);
        proof {
            assert(pair_fits(query@, vectors@[idx as int]@));
            assert(index_range(idx + 1) =~= index_range(idx as int).insert(idx as int));
        }
        if is_better_candidate(distance, idx, best_distances[4], best_indices[4]) {
            let ghost od = best_distances@;
            let ghost oi = best_indices@;
            let ghost ol = best_labels@;
            insert_best(distance, idx, labels[idx], &mut best_distances, &mut best_indices, &mut best_labels);
            proof {
                top = lemma_inserted(od, oi, ol, best_distances@, best_indices@, best_labels@, top,
                    dist, labels@, index_range(idx as int), idx as int, n as int);
            }
        } else {
            proof {
                lemma_not_inserted(best_distances@, best_indices@, best_labels@, top, dist, labels@,
                    index_range(idx as int), idx as int, n as int);
            }
        }
        idx = idx + 1;
    }
    proof {
        lemma_final_decision(best_distances@, best_indices@, best_labels@, top, dist, labels@, n as int);
    }
    decision_from_best(&best_distances, &best_labels)
}

/// References are in ascending order of coordinate 2 (`amount_vs_avg`).
pub open spec fn sorted_by_dim2(vectors: Seq<QuantizedVector>) -> bool {
    forall|i: int, j: int| 0 <= i <= j < vectors.len() ==> #[trigger] vectors[i]@[2] <= #[trigger] vectors[j]@[2]
}

/// First index whose coordinate 2 is not below `value`, in references sorted by coordinate 2.
fn partition_point_by_dim2(vectors: &[QuantizedVector], value: i16) -> (p: usize)
    requires
        sorted_by_dim2(vectors@),
    ensures
        p <= vectors@.len(),
        forall|i: int| 0 <= i < p ==> #[trigger] vectors@[i]@[2] < value,
        forall|i: int| p <= i < vectors@.len() ==> #[trigger] vectors@[i]@[2] >= value,
{
    let mut lo: usize = 0;
    let mut hi: usize = vectors.len();
    while lo < hi
        invariant
            lo <= hi <= vectors@.len(),
            sorted_by_dim2(vectors@),
            forall|i: int| 0 <= i < lo ==> #[trigger] vectors@[i]@[2] < value,
            forall|i: int| hi <= i < vectors@.len() ==> #[trigger] vectors@[i]@[2] >= value,
        decreases hi - lo,
    {
        let mid = lo + (hi - lo) / 2;
        if vectors[mid][2] < value {
            proof {
                assert forall|i: int| 0 <= i < mid + 1 implies #[trigger] vectors@[i]@[2] < value by {
                    assert(vectors@[i]@[2] <= vectors@[mid as int]@[2]);
                }
            }
            lo = mid + 1;
        } else {
            proof {
                assert forall|i: int| mid <= i < vectors@.len() implies #[trigger] vectors@[i]@[2] >= value by {
                    assert(vectors@[mid as int]@[2] <= vectors@[i]@[2]);
                }
            }
            hi = mid;
        }
    }
    lo
}

/// Squared gap of coordinate 2 alone, a lower bound of the full squared distance.
fn dim2_distance(query: &QuantizedVector, vector: &QuantizedVector) -> (r: i64)
    requires
        pair_fits(query@, vector@),
    ensures
        r == square_gap(query@[2], vector@[2]),
        0 <= r <= 2147483647,
{
    proof {
        assert(gap_fits(query@[2], vector@[2]));
        lemma_square_gap_nonneg(query@[2], vector@[2]);
    }
    let diff: i32 = query[2] as i32 - vector[2] as i32;
    (diff * diff) as i64
}

proof fn lemma_dim2_below_distance(left: Seq<i16>, right: Seq<i16>, n: nat)
    requires
        pair_fits(left, right),
        3 <= n <= 14,
    ensures
        square_gap(left[2], right[2]) <= partial_squared_distance(left, right, n),
    decreases n,
{
    lemma_square_gap_nonneg(left[n - 1], right[n - 1]);
    if n > 3 {
        lemma_dim2_below_distance(left, right, (n - 1) as nat);
    } else {
        lemma_distance_bounds(left, right, 2);
    }
}

/// A larger gap on the same side of the query has a larger square.
proof fn lemma_square_monotone(q: i16, a: i16, b: i16)
    requires
        (a <= b <= q) || (q <= b <= a),
    ensures
        square_gap(q, b) <= square_gap(q, a),
{
    let x = q - a;
    let y = q - b;
    assert(y * y <= x * x) by (nonlinear_arith)
        requires
            (0 <= y <= x) || (x <= y <= 0),
    ;
}

/// The candidates `lo .. hi`.
pub open spec fn index_span(lo: int, hi: int) -> Set<int> {
    Set::new(|i: int| lo <= i < hi)
}

/// The decision of the five references nearest to `query`, for references sorted by
/// coordinate 2: the search widens from where `query` would sit in that order and stops
/// once coordinate 2 alone puts every remaining reference beyond the fifth neighbour.
pub fn decide_pruned_by_dim2(query: &QuantizedVector, vectors: &[QuantizedVector], labels: &[u8]) -> (d: Decision)
    requires
        vectors@.len() == labels@.len(),
        sorted_by_dim2(vectors@),
        rows_fit(query@, vectors@),
        label_sum(labels@, nearest_five(row_distance(query@, vectors@), vectors@.len() as int)) <= 255,
    ensures
        d == nearest_decision(labels@, nearest_five(row_distance(query@, vectors@), vectors@.len() as int)),
{
    let mut best_distances: [i64; 5] = [i64::MAX, i64::MAX, i64::MAX, i64::MAX, i64::MAX];
    let mut best_indices: [usize; 5] = [usize::MAX, usize::MAX, usize::MAX, usize::MAX, usize::MAX];
    let mut best_labels: [u8; 5] = [0, 0, 0, 0, 0];
    let distance_fn = squared_distance_fn();
    let ghost dist = row_distance(query@, vectors@);
    let ghost mut top: Seq<int> = Seq::empty();
    let n = vectors.len();
    let pivot = partition_point_by_dim2(vectors, query[2]);
    let mut left = pivot;
    let mut right = pivot;
    proof {
        lemma_rows_bounded(query@, vectors@);
        lemma_empty_slots(dist, labels@, best_distances@, best_indices@, best_labels@);
        assert(index_span(pivot as int, pivot as int) =~= Set::<int>::empty());
    }
    loop
        invariant
            left <= pivot <= right <= n,
            n == vectors@.len(),
            n == labels@.len(),
            dist == row_distance(query@, vectors@),
            rows_fit(query@, vectors@),
            sorted_by_dim2(vectors@),
            forall|i: int| 0 <= i < pivot ==> #[trigger] vectors@[i]@[2] < query@[2],
            forall|i: int| pivot <= i < n ==> #[trigger] vectors@[i]@[2] >= query@[2],
            distances_bounded(dist, n as int),
            holds_top(best_distances@, best_indices@, best_labels@, top, dist, labels@),
            is_nearest_five(dist, index_span(left as int, right as int), top),
        ensures
            holds_top(best_distances@, best_indices@, best_labels@, top, dist, labels@),
            is_nearest_five(dist, index_range(n as int), top),
        decreases left + (n - right),
    {
        let left_bound: i64 = if left == 0 {
            i64::MAX
        } else {
            proof {
                assert(pair_fits(query@, vectors@[left - 1]@));
            }
            dim2_distance(query, &vectors[left - 1])
        };
        let right_bound: i64 = if right == n {
            i64::MAX
        } else {
            proof {
                assert(pair_fits(query@, vectors@[right as int]@));
            }
            dim2_distance(query, &vectors[right])
        };
        proof {
            if left > 0 {
                lemma_dim2_below_distance(query@, vectors@[left - 1]@, 14);
            }
            if right < n {
                lemma_dim2_below_distance(query@, vectors@[right as int]@, 14);
            }
        }
        if left_bound == i64::MAX && right_bound == i64::MAX {
            proof {
                assert(index_span(0, n as int) =~= index_range(n as int));
            }
            break;
        }
        if left_bound <= right_bound {
            if left_bound > best_distances[4] {
                proof {
                    lemma_prune_rest(query@, vectors@, best_distances@, best_indices@, best_labels@, top,
                        labels@, left as int, right as int, pivot as int, left_bound as int);
                }
                break;
            }
            left -= 1;
            let distance = distance_fn.call(query, &vectors[left]);
            proof {
                assert(index_span(left as int, right as int) =~= index_span(left + 1, right as int).insert(left as int));
            }
            if is_better_candidate(distance, left, best_distances[4], best_indices[4]) {
                let ghost od = best_distances@;
                let ghost oi = best_indices@;
                let ghost ol = best_labels@;
                insert_best(distance, left, labels[left], &mut best_distances, &mut best_indices, &mut best_labels);
                proof {
                    top = lemma_inserted(od, oi, ol, best_distances@, best_indices@, best_labels@, top,
                        dist, labels@, index_span(left + 1, right as int), left as int, n as int);
                }
            } else {
                proof {
                    lemma_not_inserted(best_distances@, best_indices@, best_labels@, top, dist, labels@,
                        index_span(left + 1, right as int), left as int, n as int);
                }
            }
        } else {
            if right_bound > best_distances[4] {
                proof {
                    lemma_prune_rest(query@, vectors@, best_distances@, best_indices@, best_labels@, top,
                        labels@, left as int, right as int, pivot as int, right_bound as int);
                }
                break;
            }
            let distance = distance_fn.call(query, &vectors[right]);
            proof {
                assert(index_span(left as int, right + 1) =~= index_span(left as int, right as int).insert(right as int));
            }
            if is_better_candidate(distance, right, best_distances[4], best_indices[4]) {
                let ghost od = best_distances@;
                let ghost oi = best_indices@;
                let ghost ol = best_labels@;
                insert_best(distance, right, labels[right], &mut best_distances, &mut best_indices, &mut best_labels);
                proof {
                    top = lemma_inserted(od, oi, ol, best_distances@, best_indices@, best_labels@, top,
                        dist, labels@, index_span(left as int, right as int), right as int, n as int);
                }
            } else {
                proof {
                    lemma_not_inserted(best_distances@, best_indices@, best_labels@, top, dist, labels@,
                        index_span(left as int, right as int), right as int, n as int);
                }
            }
            right += 1;
        }
    }
    proof {
        lemma_final_decision(best_distances@, best_indices@, best_labels@, top, dist, labels@, n as int);
    }
    decision_from_best(&best_distances, &best_labels)
}

/// When the nearer of the two frontier gaps on coordinate 2 already exceeds the fifth
/// slot, every reference not yet visited ranks after the fifth neighbour.
proof fn lemma_prune_rest(
    query: Seq<i16>,
    vectors: Seq<QuantizedVector>,
    bd: Seq<i64>,
    bi: Seq<usize>,
    bl: Seq<u8>,
    top: Seq<int>,
    labels: Seq<u8>,
    left: int,
    right: int,
    pivot: int,
    bound: int,
)
    requires
        0 <= left <= pivot <= right <= vectors.len(),
        rows_fit(query, vectors),
        sorted_by_dim2(vectors),
        forall|i: int| 0 <= i < pivot ==> #[trigger] vectors[i]@[2] < query[2],
        forall|i: int| pivot <= i < vectors.len() ==> #[trigger] vectors[i]@[2] >= query[2],
        distances_bounded(row_distance(query, vectors), vectors.len() as int),
        holds_top(bd, bi, bl, top, row_distance(query, vectors), labels),
        is_nearest_five(row_distance(query, vectors), index_span(left, right), top),
        bd[4] < bound <= i64::MAX,
        left > 0 ==> bound <= square_gap(query[2], vectors[left - 1]@[2]),
        right < vectors.len() ==> bound <= square_gap(query[2], vectors[right]@[2]),
    ensures
        is_nearest_five(row_distance(query, vectors), index_range(vectors.len() as int), top),
{
    let dist = row_distance(query, vectors);
    let n = vectors.len() as int;
    let extra = Set::new(|i: int| (0 <= i < left) || (right <= i < n));
    assert(top.len() == 5) by {
        if top.len() < 5 {
            assert(bd[4] == i64::MAX);
        }
    }
    assert forall|j: int| #[trigger] extra.contains(j) implies top.len() == 5 && closer(dist, top[4], j) by {
        assert(pair_fits(query, vectors[j]@));
        lemma_dim2_below_distance(query, vectors[j]@, 14);
        if j < left {
            assert(vectors[j]@[2] <= vectors[left - 1]@[2]);
            lemma_square_monotone(query[2], vectors[j]@[2], vectors[left - 1]@[2]);
        } else {
            assert(vectors[right]@[2] <= vectors[j]@[2]);
            lemma_square_monotone(query[2], vectors[j]@[2], vectors[right]@[2]);
        }
        assert(bd[4] == dist(top[4]));
    }
    lemma_add_far_set(dist, index_span(left, right), top, extra);
    assert(index_span(left, right).union(extra) =~= index_range(n));
}

/// Sum of the squared gaps, over the first `n` coordinates, between `query` and the
/// reference at `idx` stored column by column.
pub open spec fn partial_column_distance(query: Seq<i16>, columns: [&[i16]; DIMS], idx: int, n: nat) -> int
    decreases n,
{
    if n == 0 {
        0
    } else {
        partial_column_distance(query, columns, idx, (n - 1) as nat)
            + square_gap(query[n - 1], columns@[n - 1]@[idx])
    }
}

/// Squared distance from `query` to each reference stored column by column.
pub open spec fn column_distance(query: Seq<i16>, columns: [&[i16]; DIMS]) -> spec_fn(int) -> int {
    |i: int| partial_column_distance(query, columns, i, 14)
}

/// Each column holds one entry per label, and every gap to `query` squares within `i32`.
pub open spec fn columns_fit(query: Seq<i16>, columns: [&[i16]; DIMS], n: int) -> bool {
    &&& query.len() >= 14
    &&& forall|d: int| 0 <= d < 14 ==> #[trigger] columns@[d]@.len() == n
    &&& forall|d: int, i: int| 0 <= d < 14 && 0 <= i < n ==> gap_fits(query[d], #[trigger] columns@[d]@[i])
}

proof fn lemma_column_bounds(query: Seq<i16>, columns: [&[i16]; DIMS], n: int, idx: int, k: nat)
    requires
        columns_fit(query, columns, n),
        0 <= idx < n,
        k <= 14,
    ensures
        0 <= partial_column_distance(query, columns, idx, k) <= k * 2147483647,
    decreases k,
{
    if k > 0 {
        lemma_column_bounds(query, columns, n, idx, (k - 1) as nat);
        lemma_square_gap_nonneg(query[k - 1], columns@[k - 1]@[idx]);
        assert(gap_fits(query[k - 1], columns@[k - 1]@[idx]));
    }
}

/// Squared distance from `query` to the reference at `idx`, read column by column.
fn squared_distance_soa_at(query: &QuantizedVector, dimensions: &[&[i16]; DIMS], idx: usize) -> (r: i64)
    requires
        columns_fit(query@, *dimensions, dimensions@[0]@.len() as int),
        idx < dimensions@[0]@.len(),
    ensures
        r == column_distance(query@, *dimensions)(idx as int),
{
    let ghost n = dimensions@[0]@.len() as int;
    let mut sum: i64 = 0;
    let mut dim: usize = 0;
    while dim < DIMS
        invariant
            dim <= 14,
            columns_fit(query@, *dimensions, n),
            idx < n,
            sum == partial_column_distance(query@, *dimensions, idx as int, dim as nat),
            0 <= sum <= dim * 2147483647,
        decreases 14 - dim,
    {
        proof {
            assert(dimensions@[dim as int]@.len() == n);
            lemma_square_gap_nonneg(query@[dim as int], dimensions@[dim as int]@[idx as int]);
            assert(gap_fits(query@[dim as int], dimensions@[dim as int]@[idx as int]));
        }
        let diff: i32 = query[dim] as i32 - dimensions[dim][idx] as i32;
        sum = sum + (diff * diff) as i64;
        dim = dim + 1;
    }
    sum
}

/// The decision of the five references nearest to `query`, for references stored
/// column by column: `dimensions[d][i]` is coordinate `d` of reference `i`.
pub fn decide_from_soa(query: &QuantizedVector, dimensions: [&[i16]; DIMS], labels: &[u8]) -> (d: Decision)
    requires
        columns_fit(query@, dimensions, labels@.len() as int),
        label_sum(labels@, nearest_five(column_distance(query@, dimensions), labels@.len() as int)) <= 255,
    ensures
        d == nearest_decision(labels@, nearest_five(column_distance(query@, dimensions), labels@.len() as int)),
{
    decide_from_soa_scalar(query, &dimensions, labels)
}

fn decide_from_soa_scalar(query: &QuantizedVector, dimensions: &[&[i16]; DIMS], labels: &[u8]) -> (d: Decision)
    requires
        columns_fit(query@, *dimensions, labels@.len() as int),
        label_sum(labels@, nearest_five(column_distance(query@, *dimensions), labels@.len() as int)) <= 255,
    ensures
        d == nearest_decision(labels@, nearest_five(column_distance(query@, *dimensions), labels@.len() as int)),
{
    let mut best_distances: [i64; 5] = [i64::MAX, i64::MAX, i64::MAX, i64::MAX, i64::MAX];
    let mut best_indices: [usize; 5] = [usize::MAX, usize::MAX, usize::MAX, usize::MAX, usize::MAX];
    let mut best_labels: [u8; 5] = [0, 0, 0, 0, 0];
    let ghost dist = column_distance(query@, *dimensions);
    let ghost mut top: Seq<int> = Seq::empty();
    let n = labels.len();
    proof {
        assert forall|i: int| 0 <= i < n implies 0 <= #[trigger] dist(i) < i64::MAX by {
            lemma_column_bounds(query@, *dimensions, n as int, i, 14);
        }
        assert(dimensions@[0]@.len() == n);
        lemma_empty_slots(dist, labels@, best_distances@, best_indices@, best_labels@);
        assert(index_range(0) =~= Set::<int>::empty());
    }
    let mut idx: usize = 0;
    while idx < n
        invariant
            idx <= n,
            n == labels@.len(),
            dist == column_distance(query@, *dimensions),
            columns_fit(query@, *dimensions, n as int),
            dimensions@[0]@.len() == n,
            distances_bounded(dist, n as int),
            holds_top(best_distances@, best_indices@, best_labels@, top, dist, labels@),
            is_nearest_five(dist, index_range(idx as int), top),
        decreases n - idx,
    {
        let distance = squared_distance_soa_at(query, dimensions, idx);
        proof {
            assert(index_range(idx + 1) =~= index_range(idx as int).insert(idx as int));
        }
        if is_better_candidate(distance, idx, best_distances[4], best_indices[4]) {
            let ghost od = best_distances@;
            let ghost oi = best_indices@;
            let ghost ol = best_labels@;
            insert_best(distance, idx, labels[idx], &mut best_distances, &mut best_indices, &mut best_labels);
            proof {
                top = lemma_inserted(od, oi, ol, best_distances@, best_indices@, best_labels@, top,
                    dist, labels@, index_range(idx as int), idx as int, n as int);
            }
        } else {
            proof {
                lemma_not_inserted(best_distances@, best_indices@, best_labels@, top, dist, labels@,
                    index_range(idx as int), idx as int, n as int);
            }
        }
        idx = idx + 1;
    }
    proof {
        lemma_final_decision(best_distances@, best_indices@, best_labels@, top, dist, labels@, n as int);
    }
    decision_from_best(&best_distances, &best_labels)
}

/// The columns hold the references' first `DIMS` coordinates, transposed.
pub open spec fn columns_transpose(columns: [&[i16]; DIMS], vectors: Seq<QuantizedVector>) -> bool {
    forall|d: int, i: int| 0 <= d < 14 && 0 <= i < vectors.len() ==> #[trigger] columns@[d]@[i] == vectors[i]@[d]
}

proof fn lemma_column_matches_row(query: Seq<i16>, columns: [&[i16]; DIMS], vectors: Seq<QuantizedVector>, i: int, k: nat)
    requires
        columns_transpose(columns, vectors),
        0 <= i < vectors.len(),
        k <= 14,
    ensures
        partial_column_distance(query, columns, i, k) == partial_squared_distance(query, vectors[i]@, k),
    decreases k,
{
    if k > 0 {
        lemma_column_matches_row(query, columns, vectors, i, (k - 1) as nat);
        assert(columns@[k - 1]@[i] == vectors[i]@[k - 1]);
    }
}

/// Law: storing the references column by column does not change the decision. When
/// `columns` is the transpose of `vectors`, the column search and the row search pick the
/// same five nearest references, hence the same decision.
pub proof fn law_columns_decide_like_rows(
    query: Seq<i16>,
    columns: [&[i16]; DIMS],
    vectors: Seq<QuantizedVector>,
    labels: Seq<u8>,
)
    requires
        columns_transpose(columns, vectors),
        vectors.len() == labels.len(),
    ensures
        nearest_decision(labels, nearest_five(column_distance(query, columns), labels.len() as int))
            == nearest_decision(labels, nearest_five(row_distance(query, vectors), vectors.len() as int)),
{
    let n = vectors.len() as int;
    assert forall|i: int| 0 <= i < n implies #[trigger] column_distance(query, columns)(i) == row_distance(query, vectors)(i) by {
        lemma_column_matches_row(query, columns, vectors, i, 14);
    }
    lemma_nearest_same_distances(column_distance(query, columns), row_distance(query, vectors), n);
}

/// Reference `i` is one of the entries of `node`.
pub open spec fn in_span(node: KdNode, i: int) -> bool {
    node.start <= i < node.end
}

/// The entries of `node`.
pub open spec fn span_set(node: KdNode) -> Set<int> {
    Set::new(|i: int| in_span(node, i))
}

/// `v` lies within the bounding box of `node` on the first `DIMS` coordinates.
pub open spec fn in_box(node: KdNode, v: Seq<i16>) -> bool {
    forall|d: int| 0 <= d < 14 ==> node.min@[d] <= #[trigger] v[d] <= node.max@[d]
}

/// Node `k` roots a kd-subtree of height at most `h`: its entries are a non-empty range of
/// the references that lie in its box, and an inner node's two children split that range.
pub open spec fn kd_subtree(nodes: Seq<KdNode>, vectors: Seq<QuantizedVector>, k: int, h: nat) -> bool
    decreases h,
{
    if !(0 <= k < nodes.len()) {
        false
    } else {
        let node = nodes[k];
        let base = {
            &&& node.start < node.end
            &&& node.end <= vectors.len()
            &&& forall|i: int| #[trigger] in_span(node, i) ==> in_box(node, vectors[i]@)
        };
        if node.left == KD_LEAF {
            base
        } else if h == 0 {
            false
        } else {
            let l = node.left as int;
            let r = node.right as int;
            &&& base
            &&& l < nodes.len() && r < nodes.len()
            &&& nodes[l].start == node.start && nodes[l].end == nodes[r].start && nodes[r].end == node.end
            &&& kd_subtree(nodes, vectors, l, (h - 1) as nat)
            &&& kd_subtree(nodes, vectors, r, (h - 1) as nat)
        }
    }
}

/// The tree stored in `nodes` covers all `vectors` from its root, node 0, and is at most
/// 127 levels deep, so that its search stack never overflows.
pub open spec fn kd_tree_valid(nodes: Seq<KdNode>, vectors: Seq<QuantizedVector>) -> bool {
    nodes.len() > 0 ==> {
        &&& nodes[0].start == 0
        &&& nodes[0].end == vectors.len()
        &&& kd_subtree(nodes, vectors, 0, 127)
    }
}

/// A kd-subtree of height at most `h` is also one of height at most `h + 1`.
proof fn lemma_kd_subtree_taller(nodes: Seq<KdNode>, vectors: Seq<QuantizedVector>, k: int, h: nat)
    requires
        kd_subtree(nodes, vectors, k, h),
    ensures
        kd_subtree(nodes, vectors, k, h + 1),
    decreases h,
{
    let node = nodes[k];
    if node.left != KD_LEAF {
        lemma_kd_subtree_taller(nodes, vectors, node.left as int, (h - 1) as nat);
        lemma_kd_subtree_taller(nodes, vectors, node.right as int, (h - 1) as nat);
    }
}

/// Some reference on the stack (below `len`) has `i` among its entries.
pub open spec fn stack_covers(nodes: Seq<KdNode>, stack: Seq<usize>, len: int, i: int) -> bool {
    exists|p: int| 0 <= p < len && #[trigger] in_span(nodes[stack[p] as int], i)
}

/// Search frontier of the kd-tree walk: the references are split between those already
/// dealt with (`done`), those of the node being processed (`held`) and those of the nodes on
/// the stack, which are valid subtrees short enough for the stack's remaining room.
pub open spec fn kd_frontier(
    nodes: Seq<KdNode>,
    vectors: Seq<QuantizedVector>,
    stack: Seq<usize>,
    len: int,
    done: Set<int>,
    held: Set<int>,
) -> bool {
    &&& 0 <= len <= 128
    &&& stack.len() == 128
    &&& forall|p: int| 0 <= p < len ==> kd_subtree(nodes, vectors, #[trigger] stack[p] as int, (127 - p) as nat)
    &&& forall|p: int, q: int, i: int|
        0 <= p < q < len ==> !(#[trigger] in_span(nodes[stack[p] as int], i) && #[trigger] in_span(nodes[stack[q] as int], i))
    &&& forall|i: int| #[trigger] done.contains(i) ==> 0 <= i < vectors.len() && !held.contains(i)
        && !stack_covers(nodes, stack, len, i)
    &&& forall|i: int| #[trigger] held.contains(i) ==> 0 <= i < vectors.len() && !stack_covers(nodes, stack, len, i)
    &&& forall|i: int| 0 <= i < vectors.len() ==> #[trigger] done.contains(i) || held.contains(i)
        || stack_covers(nodes, stack, len, i)
}

/// Taking the top node off the stack: its entries become held.
proof fn lemma_frontier_pop(
    nodes: Seq<KdNode>,
    vectors: Seq<QuantizedVector>,
    stack: Seq<usize>,
    len: int,
    done: Set<int>,
)
    requires
        kd_frontier(nodes, vectors, stack, len, done, Set::empty()),
        len > 0,
    ensures
        kd_frontier(nodes, vectors, stack, len - 1, done, span_set(nodes[stack[len - 1] as int])),
        kd_subtree(nodes, vectors, stack[len - 1] as int, (127 - (len - 1)) as nat),
{
    let t = len - 1;
    let top = nodes[stack[t] as int];
    assert(kd_subtree(nodes, vectors, stack[t] as int, (127 - t) as nat));
    assert forall|i: int| #[trigger] done.contains(i) implies 0 <= i < vectors.len()
        && !span_set(top).contains(i) && !stack_covers(nodes, stack, t, i) by {
        if in_span(top, i) {
            assert(stack_covers(nodes, stack, len, i));
        }
        if stack_covers(nodes, stack, t, i) {
            let p = choose|p: int| 0 <= p < t && #[trigger] in_span(nodes[stack[p] as int], i);
            assert(stack_covers(nodes, stack, len, i));
        }
    }
    assert forall|i: int| #[trigger] span_set(top).contains(i) implies 0 <= i < vectors.len()
        && !stack_covers(nodes, stack, t, i) by {
        assert(in_span(top, i));
        if stack_covers(nodes, stack, t, i) {
            let p = choose|p: int| 0 <= p < t && #[trigger] in_span(nodes[stack[p] as int], i);
            assert(in_span(nodes[stack[t] as int], i));
        }
    }
    assert forall|i: int| 0 <= i < vectors.len() implies #[trigger] done.contains(i)
        || span_set(top).contains(i) || stack_covers(nodes, stack, t, i) by {
        if !done.contains(i) && !span_set(top).contains(i) {
            assert(stack_covers(nodes, stack, len, i));
            let p = choose|p: int| 0 <= p < len && #[trigger] in_span(nodes[stack[p] as int], i);
            assert(p != t);
        }
    }
}

/// Pushing a node whose entries are held and whose height fits the stack position.
proof fn lemma_frontier_push(
    nodes: Seq<KdNode>,
    vectors: Seq<QuantizedVector>,
    stack: Seq<usize>,
    len: int,
    done: Set<int>,
    held: Set<int>,
    c: usize,
)
    requires
        kd_frontier(nodes, vectors, stack, len, done, held),
        len < 128,
        kd_subtree(nodes, vectors, c as int, (127 - len) as nat),
        span_set(nodes[c as int]).subset_of(held),
    ensures
        kd_frontier(nodes, vectors, stack.update(len, c), len + 1, done,
            held.difference(span_set(nodes[c as int]))),
{
    let s2 = stack.update(len, c);
    let cn = nodes[c as int];
    let h2 = held.difference(span_set(cn));
    assert forall|p: int| 0 <= p < len + 1 implies kd_subtree(nodes, vectors, #[trigger] s2[p] as int, (127 - p) as nat) by {
        if p < len {
            assert(s2[p] == stack[p]);
        }
    }
    assert forall|i: int| stack_covers(nodes, s2, len + 1, i) implies stack_covers(nodes, stack, len, i) || in_span(cn, i) by {
        let p = choose|p: int| 0 <= p < len + 1 && #[trigger] in_span(nodes[s2[p] as int], i);
        if p < len {
            assert(s2[p] == stack[p]);
            assert(stack_covers(nodes, stack, len, i));
        }
    }
    assert forall|p: int, q: int, i: int| 0 <= p < q < len + 1 implies !(#[trigger] in_span(nodes[s2[p] as int], i)
        && #[trigger] in_span(nodes[s2[q] as int], i)) by {
        assert(s2[p] == stack[p]);
        if q < len {
            assert(s2[q] == stack[q]);
        } else {
            if in_span(nodes[s2[p] as int], i) && in_span(cn, i) {
                assert(held.contains(i));
                assert(stack_covers(nodes, stack, len, i));
            }
        }
    }
    assert forall|i: int| #[trigger] done.contains(i) implies 0 <= i < vectors.len() && !h2.contains(i)
        && !stack_covers(nodes, s2, len + 1, i) by {
        if stack_covers(nodes, s2, len + 1, i) {
            if in_span(cn, i) {
                assert(span_set(cn).contains(i));
                assert(held.contains(i));
            }
        }
    }
    assert forall|i: int| #[trigger] h2.contains(i) implies 0 <= i < vectors.len() && !stack_covers(nodes, s2, len + 1, i) by {
        assert(held.contains(i));
        if stack_covers(nodes, s2, len + 1, i) {
            if in_span(cn, i) {
                assert(span_set(cn).contains(i));
            }
        }
    }
    assert forall|i: int| 0 <= i < vectors.len() implies #[trigger] done.contains(i) || h2.contains(i)
        || stack_covers(nodes, s2, len + 1, i) by {
        if !done.contains(i) && !h2.contains(i) {
            if held.contains(i) {
                assert(span_set(cn).contains(i));
                assert(in_span(nodes[s2[len] as int], i));
            } else {
                assert(stack_covers(nodes, stack, len, i));
                let p = choose|p: int| 0 <= p < len && #[trigger] in_span(nodes[stack[p] as int], i);
                assert(s2[p] == stack[p]);
                assert(in_span(nodes[s2[p] as int], i));
            }
        }
    }
}

/// Moving held references to the done set.
proof fn lemma_frontier_retire(
    nodes: Seq<KdNode>,
    vectors: Seq<QuantizedVector>,
    stack: Seq<usize>,
    len: int,
    done: Set<int>,
    held: Set<int>,
    x: Set<int>,
)
    requires
        kd_frontier(nodes, vectors, stack, len, done, held),
        x.subset_of(held),
    ensures
        kd_frontier(nodes, vectors, stack, len, done.union(x), held.difference(x)),
{
    assert forall|i: int| 0 <= i < vectors.len() implies #[trigger] done.union(x).contains(i)
        || held.difference(x).contains(i) || stack_covers(nodes, stack, len, i) by {
        if done.contains(i) {
        } else if held.contains(i) {
        } else {
        }
    }
    assert forall|i: int| #[trigger] done.union(x).contains(i) implies 0 <= i < vectors.len()
        && !held.difference(x).contains(i) && !stack_covers(nodes, stack, len, i) by {
        if !done.contains(i) {
            assert(held.contains(i));
        }
    }
}

/// Nearest point of `[lo, hi]` to `q`, as the box bound computes it.
pub open spec fn clamp_coordinate(q: i16, lo: i16, hi: i16) -> i16 {
    if q < lo { lo } else if q > hi { hi } else { q }
}

/// Squared distance from `query` to the bounding box of `node`, over the first `n` coordinates.
pub open spec fn partial_box_distance(query: Seq<i16>, node: KdNode, n: nat) -> int
    decreases n,
{
    if n == 0 {
        0
    } else {
        partial_box_distance(query, node, (n - 1) as nat)
            + square_gap(query[n - 1], clamp_coordinate(query[n - 1], node.min@[n - 1], node.max@[n - 1]))
    }
}

/// The box distance is a lower bound of the distance to any point in the box.
proof fn lemma_box_below(query: Seq<i16>, node: KdNode, v: Seq<i16>, n: nat)
    requires
        in_box(node, v),
        pair_fits(query, v),
        n <= 14,
    ensures
        0 <= partial_box_distance(query, node, n) <= partial_squared_distance(query, v, n),
        forall|d: int| 0 <= d < n ==> #[trigger] gap_fits(query[d], clamp_coordinate(query[d], node.min@[d], node.max@[d])),
    decreases n,
{
    if n > 0 {
        lemma_box_below(query, node, v, (n - 1) as nat);
        let d = n - 1;
        let q = query[d];
        let c = clamp_coordinate(q, node.min@[d], node.max@[d]);
        assert(node.min@[d] <= v[d] <= node.max@[d]);
        lemma_square_monotone(q, v[d], c);
        lemma_square_gap_nonneg(q, c);
        assert(gap_fits(q, v[d]));
    }
}

/// The box distance over the first `n` coordinates is zero exactly when the query lies in
/// the box on each of them.
proof fn lemma_box_distance_zero(query: Seq<i16>, node: KdNode, n: nat)
    requires
        n <= 14,
        query.len() >= 14,
        forall|d: int| 0 <= d < 14 ==> #[trigger] node.min@[d] <= node.max@[d],
    ensures
        partial_box_distance(query, node, n) >= 0,
        partial_box_distance(query, node, n) == 0 <==> forall|d: int| 0 <= d < n ==> node.min@[d]
            <= #[trigger] query[d] <= node.max@[d],
    decreases n,
{
    if n > 0 {
        lemma_box_distance_zero(query, node, (n - 1) as nat);
        let d = n - 1;
        let q = query[d];
        let c = clamp_coordinate(q, node.min@[d], node.max@[d]);
        let g: int = q - c;
        assert(g * g >= 0 && (g * g == 0 <==> g == 0)) by (nonlinear_arith);
        assert(node.min@[d] <= node.max@[d]);
        if partial_box_distance(query, node, n) == 0 {
            assert forall|e: int| 0 <= e < n implies node.min@[e] <= #[trigger] query[e] <= node.max@[e] by {
                if e < d {
                    assert(forall|f: int| 0 <= f < d ==> node.min@[f] <= #[trigger] query[f] <= node.max@[f]);
                }
            }
        }
    }
}

/// The bound of a kd-tree node is never more than the squared distance from the query to a
/// point in the node's box, and it is zero exactly when the query lies in the box.
pub proof fn law_box_distance_bounds(query: Seq<i16>, node: KdNode, v: Seq<i16>)
    requires
        in_box(node, v),
        pair_fits(query, v),
    ensures
        0 <= partial_box_distance(query, node, 14) <= squared_distance_of(query, v),
        partial_box_distance(query, node, 14) == 0 <==> in_box(node, query),
{
    lemma_box_below(query, node, v, 14);
    assert forall|d: int| 0 <= d < 14 implies #[trigger] node.min@[d] <= node.max@[d] by {
        assert(node.min@[d] <= v[d] <= node.max@[d]);
    }
    lemma_box_distance_zero(query, node, 14);
}

/// Squared distance from `query` to the bounding box of `node`.
fn kd_node_bound(query: &QuantizedVector, node: &KdNode) -> (r: i64)
    requires
        forall|d: int| 0 <= d < 14 ==> #[trigger] gap_fits(query@[d], clamp_coordinate(query@[d], node.min@[d], node.max@[d])),
    ensures
        r == partial_box_distance(query@, *node, 14),
{
    let mut sum: i64 = 0;
    let mut dim: usize = 0;
    while dim < DIMS
        invariant
            dim <= 14,
            forall|d: int| 0 <= d < 14 ==> #[trigger] gap_fits(query@[d], clamp_coordinate(query@[d], node.min@[d], node.max@[d])),
            sum == partial_box_distance(query@, *node, dim as nat),
            0 <= sum <= dim * 2147483647,
        decreases 14 - dim,
    {
        let query_value = query[dim];
        let nearest = if query_value < node.min[dim] {
            node.min[dim]
        } else if query_value > node.max[dim] {
            node.max[dim]
        } else {
            query_value
        };
        proof {
            assert(nearest == clamp_coordinate(query@[dim as int], node.min@[dim as int], node.max@[dim as int]));
            assert(gap_fits(query@[dim as int], nearest));
            lemma_square_gap_nonneg(query_value, nearest);
        }
        let diff: i32 = query_value as i32 - nearest as i32;
        sum = sum + (diff * diff) as i64;
        dim = dim + 1;
    }
    sum
}

/// Pushes a node index on the search stack.
fn push_kd_node(stack: &mut [usize; KD_STACK_CAPACITY], stack_len: &mut usize, node_idx: usize)
    requires
        *old(stack_len) < 128,
    ensures
        final(stack)@ == old(stack)@.update(*old(stack_len) as int, node_idx),
        *final(stack_len) == *old(stack_len) + 1,
{
    stack[*stack_len] = node_idx;
    *stack_len += 1;
}

/// The gaps from `query` to the box of a valid subtree's root fit, the witness being any
/// of the subtree's references.
proof fn lemma_node_box_fits(query: Seq<i16>, vectors: Seq<QuantizedVector>, nodes: Seq<KdNode>, c: int, h: nat)
    requires
        kd_subtree(nodes, vectors, c, h),
        rows_fit(query, vectors),
    ensures
        forall|d: int| 0 <= d < 14 ==> #[trigger] gap_fits(query[d], clamp_coordinate(query[d], nodes[c].min@[d], nodes[c].max@[d])),
{
    let node = nodes[c];
    let w = node.start as int;
    assert(in_span(node, w));
    assert(pair_fits(query, vectors[w]@));
    lemma_box_below(query, node, vectors[w]@, 14);
}

/// When the box distance of a valid subtree exceeds the fifth slot, all its references rank
/// after the fifth neighbour.
proof fn lemma_far_node(
    query: Seq<i16>,
    vectors: Seq<QuantizedVector>,
    nodes: Seq<KdNode>,
    c: int,
    h: nat,
    bd: Seq<i64>,
    bi: Seq<usize>,
    bl: Seq<u8>,
    top: Seq<int>,
    labels: Seq<u8>,
)
    requires
        kd_subtree(nodes, vectors, c, h),
        rows_fit(query, vectors),
        holds_top(bd, bi, bl, top, row_distance(query, vectors), labels),
        partial_box_distance(query, nodes[c], 14) > bd[4],
    ensures
        forall|i: int| #[trigger] span_set(nodes[c]).contains(i) ==> top.len() == 5
            && closer(row_distance(query, vectors), top[4], i),
{
    let dist = row_distance(query, vectors);
    let node = nodes[c];
    assert(top.len() == 5) by {
        if top.len() < 5 {
            assert(bd[4] == i64::MAX);
            assert(in_span(node, node.start as int));
            assert(pair_fits(query, vectors[node.start as int]@));
            lemma_box_below(query, node, vectors[node.start as int]@, 14);
            lemma_distance_bounds(query, vectors[node.start as int]@, 14);
        }
    }
    assert forall|i: int| #[trigger] span_set(node).contains(i) implies top.len() == 5 && closer(dist, top[4], i) by {
        assert(in_span(node, i));
        assert(pair_fits(query, vectors[i]@));
        lemma_box_below(query, node, vectors[i]@, 14);
        assert(bd[4] == dist(top[4]));
    }
}

/// The entries of an inner node are exactly those of its two children, which do not overlap.
proof fn lemma_children_split(nodes: Seq<KdNode>, vectors: Seq<QuantizedVector>, k: int, h: nat)
    requires
        kd_subtree(nodes, vectors, k, h),
        nodes[k].left != KD_LEAF,
    ensures
        span_set(nodes[k]) =~= span_set(nodes[nodes[k].left as int]).union(span_set(nodes[nodes[k].right as int])),
        span_set(nodes[nodes[k].left as int]).disjoint(span_set(nodes[nodes[k].right as int])),
{
    let l = nodes[k].left as int;
    let r = nodes[k].right as int;
    reveal_with_fuel(kd_subtree, 2);
    assert(nodes[l].start == nodes[k].start && nodes[l].end == nodes[r].start && nodes[r].end == nodes[k].end);
    assert(nodes[l].start < nodes[l].end && nodes[r].start < nodes[r].end);
    assert forall|i: int| #[trigger] span_set(nodes[k]).contains(i) <==> (in_span(nodes[l], i) || in_span(nodes[r], i)) by {
        assert(span_set(nodes[k]).contains(i) <==> in_span(nodes[k], i));
    }
    assert forall|i: int| #[trigger] span_set(nodes[l]).union(span_set(nodes[r])).contains(i) <==> (in_span(nodes[l], i) || in_span(nodes[r], i)) by {
        assert(span_set(nodes[l]).contains(i) <==> in_span(nodes[l], i));
        assert(span_set(nodes[r]).contains(i) <==> in_span(nodes[r], i));
    }
}

/// The decision of the five references nearest to `query`, searched through the kd-tree
/// `nodes` built over `vectors`: subtrees whose box lies beyond the current fifth
/// neighbour are skipped. Without a tree the request is approved.
pub fn decide_kd_tree(
    query: &QuantizedVector,
    vectors: &[QuantizedVector],
    labels: &[u8],
    nodes: &[KdNode],
) -> (d: Decision)
    requires
        nodes@.len() > 0 ==> vectors@.len() == labels@.len(),
        nodes@.len() > 0 ==> rows_fit(query@, vectors@),
        kd_tree_valid(nodes@, vectors@),
        nodes@.len() > 0 ==> label_sum(labels@, nearest_five(row_distance(query@, vectors@),
            vectors@.len() as int)) <= 255,
    ensures
        nodes@.len() == 0 ==> d == Decision::with_fraud_count(0),
        nodes@.len() > 0 ==> d == nearest_decision(labels@, nearest_five(row_distance(query@, vectors@),
            vectors@.len() as int)),
{
    if nodes.len() == 0 {
        return Decision::safe_fallback();
    }
    let mut best_distances: [i64; 5] = [i64::MAX, i64::MAX, i64::MAX, i64::MAX, i64::MAX];
    let mut best_indices: [usize; 5] = [usize::MAX, usize::MAX, usize::MAX, usize::MAX, usize::MAX];
    let mut best_labels: [u8; 5] = [0, 0, 0, 0, 0];
    let distance_fn = squared_distance_fn();
    let ghost dist = row_distance(query@, vectors@);
    let ghost mut top: Seq<int> = Seq::empty();
    let ghost mut done: Set<int> = Set::empty();
    let ghost nv = nodes@;
    let ghost vv = vectors@;
    let n = vectors.len();
    let mut stack: [usize; KD_STACK_CAPACITY] = [0usize; 128];
    let mut stack_len: usize = 1;
    proof {
        lemma_rows_bounded(query@, vectors@);
        lemma_empty_slots(dist, labels@, best_distances@, best_indices@, best_labels@);
        assert forall|i: int| 0 <= i < n implies #[trigger] done.contains(i) || Set::<int>::empty().contains(i)
            || stack_covers(nv, stack@, 1, i) by {
            assert(in_span(nv[stack@[0] as int], i));
        }
        assert(kd_frontier(nv, vv, stack@, 1, done, Set::empty()));
    }
    while stack_len > 0
        invariant
            n == vectors@.len(),
            n == labels@.len(),
            nv == nodes@,
            vv == vectors@,
            dist == row_distance(query@, vectors@),
            rows_fit(query@, vectors@),
            distances_bounded(dist, n as int),
            kd_frontier(nv, vv, stack@, stack_len as int, done, Set::empty()),
            holds_top(best_distances@, best_indices@, best_labels@, top, dist, labels@),
            is_nearest_five(dist, done, top),
        decreases stack_weight(nv, stack@, stack_len as int),
    {
        let ghost w0 = stack_weight(nv, stack@, stack_len as int);
        stack_len -= 1;
        let node_idx = stack[stack_len];
        proof {
            lemma_frontier_pop(nv, vv, stack@, stack_len + 1, done);
        }
        let ghost mut held: Set<int> = span_set(nv[node_idx as int]);
        assert(stack_weight(nv, stack@, stack_len as int) == w0 - (2 * (nv[node_idx as int].end - nv[node_idx as int].start) - 1));
        let ghost w1 = stack_weight(nv, stack@, stack_len as int);
        let ghost h: nat = (127 - stack_len) as nat;
        let node = &nodes[node_idx];
        proof {
            lemma_node_box_fits(query@, vv, nv, node_idx as int, h);
        }
        if kd_node_bound(query, node) > best_distances[4] {
            proof {
                lemma_far_node(query@, vv, nv, node_idx as int, h, best_distances@, best_indices@,
                    best_labels@, top, labels@);
                lemma_add_far_set(dist, done, top, held);
                lemma_frontier_retire(nv, vv, stack@, stack_len as int, done, held, held);
                done = done.union(held);
                assert(held.difference(held) =~= Set::<int>::empty());
                assert(stack_weight(nv, stack@, stack_len as int) < w0);
                lemma_weight_nonneg(nv, vv, stack@, stack_len as int);
            }
            continue;
        }
        if node.left == KD_LEAF {
            let mut idx = node.start as usize;
            let end = node.end as usize;
            proof {
                assert(held =~= Set::new(|i: int| idx <= i < end));
            }
            while idx < end
                invariant
                    n == vectors@.len(),
                    n == labels@.len(),
                    nv == nodes@,
                    vv == vectors@,
                    end <= n,
                    dist == row_distance(query@, vectors@),
                    rows_fit(query@, vectors@),
                    distances_bounded(dist, n as int),
                    held =~= Set::new(|i: int| idx <= i < end),
                    kd_frontier(nv, vv, stack@, stack_len as int, done, held),
                    holds_top(best_distances@, best_indices@, best_labels@, top, dist, labels@),
                    is_nearest_five(dist, done, top),
                decreases end - idx,
            {
                let distance = distance_fn.call(query, &vectors[idx]);
                proof {
                    assert(pair_fits(query@, vectors@[idx as int]@));
                    assert(held.contains(idx as int));
                    assert(!done.contains(idx as int));
                }
                if is_better_candidate(distance, idx, best_distances[4], best_indices[4]) {
                    let ghost od = best_distances@;
                    let ghost oi = best_indices@;
                    let ghost ol = best_labels@;
                    insert_best(distance, idx, labels[idx], &mut best_distances, &mut best_indices, &mut best_labels);
                    proof {
                        top = lemma_inserted(od, oi, ol, best_distances@, best_indices@, best_labels@, top,
                            dist, labels@, done, idx as int, n as int);
                    }
                } else {
                    proof {
                        lemma_not_inserted(best_distances@, best_indices@, best_labels@, top, dist, labels@,
                            done, idx as int, n as int);
                    }
                }
                proof {
                    let x = Set::empty().insert(idx as int);
                    lemma_frontier_retire(nv, vv, stack@, stack_len as int, done, held, x);
                    assert(done.union(x) =~= done.insert(idx as int));
                    done = done.insert(idx as int);
                    held = held.difference(x);
                }
                idx = idx + 1;
            }
            proof {
                assert(held =~= Set::<int>::empty());
                assert(stack_weight(nv, stack@, stack_len as int) < w0);
                lemma_weight_nonneg(nv, vv, stack@, stack_len as int);
            }
            continue;
        }
        let left_idx = node.left as usize;
        let right_idx = node.right as usize;
        proof {
            lemma_children_split(nv, vv, node_idx as int, h);
            lemma_node_box_fits(query@, vv, nv, left_idx as int, (h - 1) as nat);
            lemma_node_box_fits(query@, vv, nv, right_idx as int, (h - 1) as nat);
            lemma_kd_subtree_taller(nv, vv, left_idx as int, (h - 1) as nat);
            lemma_kd_subtree_taller(nv, vv, right_idx as int, (h - 1) as nat);
        }
        let left_bound = kd_node_bound(query, &nodes[left_idx]);
        let right_bound = kd_node_bound(query, &nodes[right_idx]);
        if left_bound <= right_bound {
            if right_bound <= best_distances[4] {
                proof {
                    lemma_frontier_push(nv, vv, stack@, stack_len as int, done, held, right_idx);
                    lemma_weight_push(nv, stack@, stack_len as int, right_idx);
                    held = held.difference(span_set(nv[right_idx as int]));
                }
                push_kd_node(&mut stack, &mut stack_len, right_idx);
            } else {
                proof {
                    lemma_far_node(query@, vv, nv, right_idx as int, (h - 1) as nat, best_distances@,
                        best_indices@, best_labels@, top, labels@);
                    let x = span_set(nv[right_idx as int]);
                    lemma_add_far_set(dist, done, top, x);
                    lemma_frontier_retire(nv, vv, stack@, stack_len as int, done, held, x);
                    done = done.union(x);
                    held = held.difference(x);
                }
            }
            if left_bound <= best_distances[4] {
                proof {
                    lemma_frontier_push(nv, vv, stack@, stack_len as int, done, held, left_idx);
                    lemma_weight_push(nv, stack@, stack_len as int, left_idx);
                    held = held.difference(span_set(nv[left_idx as int]));
                }
                push_kd_node(&mut stack, &mut stack_len, left_idx);
            } else {
                proof {
                    lemma_far_node(query@, vv, nv, left_idx as int, (h - 1) as nat, best_distances@,
                        best_indices@, best_labels@, top, labels@);
                    let x = span_set(nv[left_idx as int]);
                    lemma_add_far_set(dist, done, top, x);
                    lemma_frontier_retire(nv, vv, stack@, stack_len as int, done, held, x);
                    done = done.union(x);
                    held = held.difference(x);
                }
            }
        } else {
            if left_bound <= best_distances[4] {
                proof {
                    lemma_frontier_push(nv, vv, stack@, stack_len as int, done, held, left_idx);
                    lemma_weight_push(nv, stack@, stack_len as int, left_idx);
                    held = held.difference(span_set(nv[left_idx as int]));
                }
                push_kd_node(&mut stack, &mut stack_len, left_idx);
            } else {
                proof {
                    lemma_far_node(query@, vv, nv, left_idx as int, (h - 1) as nat, best_distances@,
                        best_indices@, best_labels@, top, labels@);
                    let x = span_set(nv[left_idx as int]);
                    lemma_add_far_set(dist, done, top, x);
                    lemma_frontier_retire(nv, vv, stack@, stack_len as int, done, held, x);
                    done = done.union(x);
                    held = held.difference(x);
                }
            }
            if right_bound <= best_distances[4] {
                proof {
                    lemma_frontier_push(nv, vv, stack@, stack_len as int, done, held, right_idx);
                    lemma_weight_push(nv, stack@, stack_len as int, right_idx);
                    held = held.difference(span_set(nv[right_idx as int]));
                }
                push_kd_node(&mut stack, &mut stack_len, right_idx);
            } else {
                proof {
                    lemma_far_node(query@, vv, nv, right_idx as int, (h - 1) as nat, best_distances@,
                        best_indices@, best_labels@, top, labels@);
                    let x = span_set(nv[right_idx as int]);
                    lemma_add_far_set(dist, done, top, x);
                    lemma_frontier_retire(nv, vv, stack@, stack_len as int, done, held, x);
                    done = done.union(x);
                    held = held.difference(x);
                }
            }
        }
        proof {
            assert(held =~= Set::<int>::empty());
            assert(stack_weight(nv, stack@, stack_len as int) < w0);
                lemma_weight_nonneg(nv, vv, stack@, stack_len as int);
        }
    }
    proof {
        assert(done =~= index_range(n as int)) by {
            assert forall|i: int| 0 <= i < n implies done.contains(i) by {
                assert(done.contains(i) || Set::<int>::empty().contains(i) || stack_covers(nv, stack@, 0, i));
            }
        }
        lemma_final_decision(best_distances@, best_indices@, best_labels@, top, dist, labels@, n as int);
    }
    decision_from_best(&best_distances, &best_labels)
}

/// Termination measure of the kd-tree walk: each node on the stack counts twice its number
/// of entries, less one.
pub open spec fn stack_weight(nodes: Seq<KdNode>, stack: Seq<usize>, len: int) -> int
    decreases len,
{
    if len <= 0 {
        0
    } else {
        stack_weight(nodes, stack, len - 1) + 2 * (nodes[stack[len - 1] as int].end
            - nodes[stack[len - 1] as int].start) - 1
    }
}

proof fn lemma_weight_prefix(nodes: Seq<KdNode>, stack: Seq<usize>, len: int, c: usize, m: int)
    requires
        0 <= m <= len < stack.len(),
    ensures
        stack_weight(nodes, stack.update(len, c), m) == stack_weight(nodes, stack, m),
    decreases m,
{
    if m > 0 {
        lemma_weight_prefix(nodes, stack, len, c, m - 1);
    }
}

proof fn lemma_weight_push(nodes: Seq<KdNode>, stack: Seq<usize>, len: int, c: usize)
    requires
        0 <= len < stack.len(),
    ensures
        stack_weight(nodes, stack.update(len, c), len + 1) == stack_weight(nodes, stack, len)
            + 2 * (nodes[c as int].end - nodes[c as int].start) - 1,
{
    lemma_weight_prefix(nodes, stack, len, c, len);
}

proof fn lemma_weight_nonneg(nodes: Seq<KdNode>, vectors: Seq<QuantizedVector>, stack: Seq<usize>, len: int)
    requires
        0 <= len <= stack.len(),
        forall|p: int| 0 <= p < len ==> kd_subtree(nodes, vectors, #[trigger] stack[p] as int, (127 - p) as nat),
    ensures
        stack_weight(nodes, stack, len) >= 0,
    decreases len,
{
    if len > 0 {
        lemma_weight_nonneg(nodes, vectors, stack, len - 1);
        assert(kd_subtree(nodes, vectors, stack[len - 1] as int, (127 - (len - 1)) as nat));
    }
}

/// The decision of the five references nearest to `query`.
pub open spec fn nearest_outcome(query: Seq<i16>, vectors: Seq<QuantizedVector>, labels: Seq<u8>) -> Decision {
    nearest_decision(labels, nearest_five(row_distance(query, vectors), vectors.len() as int))
}

/// The searches can run on `query` without overflow: every coordinate gap squares within
/// `i32` and the labels of the nearest five add up within `u8`.
pub open spec fn search_fits(query: Seq<i16>, vectors: Seq<QuantizedVector>, labels: Seq<u8>) -> bool {
    &&& rows_fit(query, vectors)
    &&& label_sum(labels, nearest_five(row_distance(query, vectors), vectors.len() as int)) <= 255
}

/// The first `DIMS` coordinates lie in `-10000 ..= 10000`, where quantization puts them.
pub open spec fn in_quantized_range(v: Seq<i16>) -> bool {
    &&& v.len() >= 14
    &&& forall|d: int| 0 <= d < 14 ==> -10000 <= #[trigger] v[d] <= 10000
}

/// Every label is 0 or 1.
pub open spec fn labels_binary(labels: Seq<u8>) -> bool {
    forall|i: int| 0 <= i < labels.len() ==> #[trigger] labels[i] <= 1
}

proof fn lemma_label_sum_binary(labels: Seq<u8>, top: Seq<int>)
    requires
        labels_binary(labels),
        forall|k: int| 0 <= k < top.len() ==> 0 <= #[trigger] top[k] < labels.len(),
    ensures
        0 <= label_sum(labels, top) <= top.len(),
    decreases top.len(),
{
    if top.len() > 0 {
        let rest = top.drop_last();
        assert forall|k: int| 0 <= k < rest.len() implies 0 <= #[trigger] rest[k] < labels.len() by {
            assert(rest[k] == top[k]);
        }
        lemma_label_sum_binary(labels, rest);
        assert(labels[top.last()] <= 1);
    }
}

/// Quantized queries and references with binary labels never overflow a search.
pub proof fn lemma_quantized_search_fits(query: Seq<i16>, vectors: Seq<QuantizedVector>, labels: Seq<u8>)
    requires
        in_quantized_range(query),
        forall|i: int| 0 <= i < vectors.len() ==> in_quantized_range(#[trigger] vectors[i]@),
        labels.len() == vectors.len(),
        labels_binary(labels),
    ensures
        search_fits(query, vectors, labels),
{
    assert forall|i: int| 0 <= i < vectors.len() implies pair_fits(query, #[trigger] vectors[i]@) by {
        let v = vectors[i]@;
        assert(in_quantized_range(v));
        assert forall|d: int| 0 <= d < 14 implies #[trigger] gap_fits(query[d], v[d]) by {
            let g: int = query[d] - v[d];
            assert(-20000 <= g <= 20000);
            assert(g * g <= 400000000) by (nonlinear_arith)
                requires -20000 <= g <= 20000;
        }
    }
    let n = vectors.len() as int;
    let dist = row_distance(query, vectors);
    lemma_nearest_exists(dist, n);
    let top = nearest_five(dist, n);
    assert forall|k: int| 0 <= k < top.len() implies 0 <= #[trigger] top[k] < labels.len() by {
        assert(index_range(n).contains(top[k]));
    }
    lemma_label_sum_binary(labels, top);
}

/// The first `DIMS` coordinates of `v` lie in the quantized range.
pub fn is_in_quantized_range(v: &QuantizedVector) -> (b: bool)
    ensures
        b == in_quantized_range(v@),
{
    let mut d: usize = 0;
    while d < DIMS
        invariant
            d <= 14,
            v@.len() == 16,
            forall|k: int| 0 <= k < d ==> -10000 <= #[trigger] v@[k] <= 10000,
        decreases 14 - d,
    {
        if v[d] < -10000 || v[d] > 10000 {
            return false;
        }
        d = d + 1;
    }
    true
}

/// Every reference lies in the quantized range.
pub fn all_in_quantized_range(vectors: &[QuantizedVector]) -> (b: bool)
    ensures
        b == forall|i: int| 0 <= i < vectors@.len() ==> in_quantized_range(#[trigger] vectors@[i]@),
{
    let mut i: usize = 0;
    while i < vectors.len()
        invariant
            i <= vectors@.len(),
            forall|k: int| 0 <= k < i ==> in_quantized_range(#[trigger] vectors@[k]@),
        decreases vectors@.len() - i,
    {
        if !is_in_quantized_range(&vectors[i]) {
            return false;
        }
        i = i + 1;
    }
    true
}

/// Every label is 0 or 1.
pub fn are_labels_binary(labels: &[u8]) -> (b: bool)
    ensures
        b == labels_binary(labels@),
{
    let mut i: usize = 0;
    while i < labels.len()
        invariant
            i <= labels@.len(),
            forall|k: int| 0 <= k < i ==> #[trigger] labels@[k] <= 1,
        decreases labels@.len() - i,
    {
        if labels[i] > 1 {
            return false;
        }
        i = i + 1;
    }
    true
}

/// The references are in ascending order of coordinate 2.
pub fn is_sorted_by_dim2(vectors: &[QuantizedVector]) -> (b: bool)
    ensures
        b == sorted_by_dim2(vectors@),
{
    let mut i: usize = 1;
    if vectors.len() == 0 {
        return true;
    }
    while i < vectors.len()
        invariant
            1 <= i <= vectors@.len(),
            sorted_by_dim2(vectors@.take(i as int)),
        decreases vectors@.len() - i,
    {
        if vectors[i][2] < vectors[i - 1][2] {
            proof {
                assert(vectors@[i - 1]@[2] > vectors@[i as int]@[2]);
            }
            return false;
        }
        proof {
            let t = vectors@.take(i + 1);
            assert forall|a: int, b: int| 0 <= a <= b < t.len() implies #[trigger] t[a]@[2] <= #[trigger] t[b]@[2] by {
                assert(t[a] == vectors@.take(i as int)[a] || a == i);
                if b == i && a < i {
                    assert(vectors@.take(i as int)[a]@[2] <= vectors@.take(i as int)[i - 1]@[2]);
                }
                if b < i {
                    assert(vectors@.take(i as int)[a]@[2] <= vectors@.take(i as int)[b]@[2]);
                }
            }
        }
        i = i + 1;
    }
    proof {
        assert(vectors@.take(vectors@.len() as int) =~= vectors@);
    }
    true
}

/// Node `k` passes the checks made on it alone: its entries are a non-empty range of the
/// references, all within its box, and an inner node's children come after it and split
/// that range.
pub open spec fn kd_node_locally_valid(nodes: Seq<KdNode>, vectors: Seq<QuantizedVector>, k: int) -> bool {
    let node = nodes[k];
    &&& node.start < node.end
    &&& node.end <= vectors.len()
    &&& forall|i: int| #[trigger] in_span(node, i) ==> in_box(node, vectors[i]@)
    &&& node.left != KD_LEAF ==> {
        let l = node.left as int;
        let r = node.right as int;
        &&& k < l < nodes.len() && k < r < nodes.len()
        &&& nodes[l].start == node.start && nodes[l].end == nodes[r].start && nodes[r].end == node.end
    }
}

/// Height of the subtree below node `k`, following only children that come after their
/// parent (0 for a leaf).
pub open spec fn kd_height(nodes: Seq<KdNode>, k: int) -> nat
    decreases nodes.len() - k,
{
    if 0 <= k < nodes.len() && nodes[k].left != KD_LEAF {
        let l = nodes[k].left as int;
        let r = nodes[k].right as int;
        if k < l < nodes.len() && k < r < nodes.len() {
            let hl = kd_height(nodes, l);
            let hr = kd_height(nodes, r);
            1 + if hl >= hr { hl } else { hr }
        } else {
            0
        }
    } else {
        0
    }
}

/// The checks `is_kd_tree_valid` makes: every node is locally valid, and the root covers
/// all references with a subtree at most 127 levels high.
pub open spec fn kd_tree_checked(nodes: Seq<KdNode>, vectors: Seq<QuantizedVector>) -> bool {
    nodes.len() > 0 ==> {
        &&& nodes[0].start == 0
        &&& nodes[0].end == vectors.len()
        &&& forall|k: int| 0 <= k < nodes.len() ==> #[trigger] kd_node_locally_valid(nodes, vectors, k)
        &&& kd_height(nodes, 0) <= 127
    }
}

proof fn lemma_locally_valid_subtree(nodes: Seq<KdNode>, vectors: Seq<QuantizedVector>, k: int)
    requires
        0 <= k < nodes.len(),
        forall|j: int| 0 <= j < nodes.len() ==> #[trigger] kd_node_locally_valid(nodes, vectors, j),
    ensures
        kd_subtree(nodes, vectors, k, kd_height(nodes, k)),
    decreases nodes.len() - k,
{
    assert(kd_node_locally_valid(nodes, vectors, k));
    let node = nodes[k];
    if node.left != KD_LEAF {
        let l = node.left as int;
        let r = node.right as int;
        let h = kd_height(nodes, k);
        lemma_locally_valid_subtree(nodes, vectors, l);
        lemma_locally_valid_subtree(nodes, vectors, r);
        lemma_kd_subtree_lift(nodes, vectors, l, kd_height(nodes, l), (h - 1) as nat);
        lemma_kd_subtree_lift(nodes, vectors, r, kd_height(nodes, r), (h - 1) as nat);
    }
}

proof fn lemma_kd_subtree_lift(nodes: Seq<KdNode>, vectors: Seq<QuantizedVector>, k: int, h: nat, h2: nat)
    requires
        kd_subtree(nodes, vectors, k, h),
        h <= h2,
    ensures
        kd_subtree(nodes, vectors, k, h2),
    decreases h2 - h,
{
    if h < h2 {
        lemma_kd_subtree_taller(nodes, vectors, k, h);
        lemma_kd_subtree_lift(nodes, vectors, k, h + 1, h2);
    }
}

/// Trees that pass the checks are valid kd-trees.
pub proof fn lemma_checked_tree_valid(nodes: Seq<KdNode>, vectors: Seq<QuantizedVector>)
    requires
        kd_tree_checked(nodes, vectors),
    ensures
        kd_tree_valid(nodes, vectors),
{
    if nodes.len() > 0 {
        lemma_locally_valid_subtree(nodes, vectors, 0);
        lemma_kd_subtree_lift(nodes, vectors, 0, kd_height(nodes, 0), 127);
    }
}

/// Every entry of `node` lies in its box.
fn node_bounds_entries(node: &KdNode, vectors: &[QuantizedVector]) -> (b: bool)
    requires
        node.end <= vectors@.len(),
    ensures
        b == forall|i: int| #[trigger] in_span(*node, i) ==> in_box(*node, vectors@[i]@),
{
    let mut i: usize = node.start as usize;
    while i < node.end as usize
        invariant
            node.start <= i,
            node.end <= vectors@.len(),
            forall|j: int| node.start <= j < i ==> in_box(*node, #[trigger] vectors@[j]@),
        decreases node.end - i,
    {
        let v = &vectors[i];
        let mut d: usize = 0;
        while d < DIMS
            invariant
                d <= 14,
                node.start <= i < node.end,
                i < vectors@.len(),
                *v == vectors@[i as int],
                forall|e: int| 0 <= e < d ==> node.min@[e] <= #[trigger] v@[e] <= node.max@[e],
            decreases 14 - d,
        {
            if v[d] < node.min[d] || v[d] > node.max[d] {
                proof {
                    assert(!in_box(*node, vectors@[i as int]@));
                    assert(in_span(*node, i as int));
                }
                return false;
            }
            d = d + 1;
        }
        i = i + 1;
    }
    proof {
        assert forall|j: int| #[trigger] in_span(*node, j) implies in_box(*node, vectors@[j]@) by {}
    }
    true
}

/// Checks the kd-tree stored in `nodes` node by node, from the last to the first; a tree
/// that passes is valid. Trees whose children come before their parent are rejected.
pub fn is_kd_tree_valid(nodes: &[KdNode], vectors: &[QuantizedVector]) -> (b: bool)
    ensures
        b == kd_tree_checked(nodes@, vectors@),
        b ==> kd_tree_valid(nodes@, vectors@),
{
    let m = nodes.len();
    if m == 0 {
        return true;
    }
    if nodes[0].start != 0 || nodes[0].end as usize != vectors.len() {
        return false;
    }
    let mut heights: Vec<usize> = vec![0usize; m];
    let mut k: usize = m;
    while k > 0
        invariant
            k <= m,
            m == nodes@.len(),
            heights@.len() == m,
            forall|j: int| k <= j < m ==> #[trigger] kd_node_locally_valid(nodes@, vectors@, j),
            forall|j: int| k <= j < m ==> #[trigger] heights@[j] == kd_height(nodes@, j),
            forall|j: int| k <= j < m ==> #[trigger] kd_height(nodes@, j) < m - j,
        decreases k,
    {
        let idx = k - 1;
        let node = &nodes[idx];
        if node.start >= node.end || node.end as usize > vectors.len() {
            proof {
                assert(!kd_node_locally_valid(nodes@, vectors@, idx as int));
            }
            return false;
        }
        if !node_bounds_entries(node, vectors) {
            proof {
                assert(!kd_node_locally_valid(nodes@, vectors@, idx as int));
            }
            return false;
        }
        let mut height: usize = 0;
        if node.left != KD_LEAF {
            let l = node.left as usize;
            let r = node.right as usize;
            if !(idx < l && l < m && idx < r && r < m) {
                proof {
                    assert(!kd_node_locally_valid(nodes@, vectors@, idx as int));
                }
                return false;
            }
            if nodes[l].start != node.start || nodes[l].end != nodes[r].start || nodes[r].end != node.end {
                proof {
                    assert(!kd_node_locally_valid(nodes@, vectors@, idx as int));
                }
                return false;
            }
            let hl = heights[l];
            let hr = heights[r];
            height = 1 + if hl >= hr { hl } else { hr };
        }
        heights.set(idx, height);
        proof {
            assert(kd_node_locally_valid(nodes@, vectors@, idx as int));
            assert(kd_height(nodes@, idx as int) == height);
        }
        k = idx;
    }
    let ok = heights[0] <= 127;
    proof {
        if ok {
            lemma_checked_tree_valid(nodes@, vectors@);
        }
    }
    ok
}

} // verus!
