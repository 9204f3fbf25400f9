//! Squared Euclidean distance between quantized vectors.
use vstd::prelude::*;

use crate::index::{QuantizedVector, DIMS};

verus! {

/// Square of the gap between two coordinates.
pub open spec fn square_gap(a: i16, b: i16) -> int {
    (a - b) * (a - b)
}

/// The square of the gap between the two coordinates fits in an `i32`.
pub open spec fn gap_fits(a: i16, b: i16) -> bool {
    square_gap(a, b) <= i32::MAX
}

/// Every one of the first `DIMS` coordinate gaps squares within `i32`.
pub open spec fn pair_fits(left: Seq<i16>, right: Seq<i16>) -> bool {
    &&& left.len() >= 14 && right.len() >= 14
    &&& forall|d: int| 0 <= d < 14 ==> #[trigger] gap_fits(left[d], right[d])
}

/// Sum of the squared gaps of the first `n` coordinates.
pub open spec fn partial_squared_distance(left: Seq<i16>, right: Seq<i16>, n: nat) -> int
    decreases n,
{
    if n == 0 {
        0
    } else {
        partial_squared_distance(left, right, (n - 1) as nat) + square_gap(left[n - 1], right[n - 1])
    }
}

/// Squared Euclidean distance over the first `DIMS` coordinates (the padding is ignored).
pub open spec fn squared_distance_of(left: Seq<i16>, right: Seq<i16>) -> int {
    partial_squared_distance(left, right, 14)
}

pub proof fn lemma_square_gap_nonneg(a: i16, b: i16)
    ensures
        square_gap(a, b) >= 0,
{
    let g = a - b;
    assert(g * g >= 0) by (nonlinear_arith);
}

/// A distance whose gaps fit is between 0 and `DIMS * i32::MAX`.
pub proof fn lemma_distance_bounds(left: Seq<i16>, right: Seq<i16>, n: nat)
    requires
        pair_fits(left, right),
        n <= 14,
    ensures
        0 <= partial_squared_distance(left, right, n) <= n * 2147483647,
    decreases n,
{
    if n > 0 {
        lemma_distance_bounds(left, right, (n - 1) as nat);
        lemma_square_gap_nonneg(left[n - 1], right[n - 1]);
        assert(gap_fits(left[n - 1], right[n - 1]));
    }
}

/// The squared-distance kernel used by the searches.
///
/// Every kernel computes the same sum over the first `DIMS` coordinates, so
/// the portable loop of `squared_distance_scalar` is the one provided.
#[derive(Debug, Clone, Copy)]
pub struct DistanceFn;

impl DistanceFn {
    /// Applies the kernel.
    pub fn call(&self, left: &QuantizedVector, right: &QuantizedVector) -> (r: i64)
        requires
            pair_fits(left@, right@),
        ensures
            r == squared_distance_of(left@, right@),
    {
        squared_distance_scalar(left, right)
    }
}

/// The kernel for this machine.
pub fn squared_distance_fn() -> DistanceFn {
    DistanceFn
}

/// Squared Euclidean distance over the first `DIMS` coordinates.
pub fn squared_distance(left: &QuantizedVector, right: &QuantizedVector) -> (r: i64)
    requires
        pair_fits(left@, right@),
    ensures
        r == squared_distance_of(left@, right@),
{
    squared_distance_fn().call(left, right)
}

/// Squared Euclidean distance over the first `DIMS` coordinates, one coordinate at a time.
pub fn squared_distance_scalar(left: &QuantizedVector, right: &QuantizedVector) -> (r: i64)
    requires
        pair_fits(left@, right@),
    ensures
        r == squared_distance_of(left@, right@),
{
    let mut sum: i64 = 0;
    let mut idx: usize = 0;
    while idx < DIMS
        invariant
            idx <= 14,
            pair_fits(left@, right@),
            sum == partial_squared_distance(left@, right@, idx as nat),
            0 <= sum <= idx * 2147483647,
        decreases 14 - idx,
    {
        let diff: i32 = left[idx] as i32 - right[idx] as i32;
        proof {
            lemma_square_gap_nonneg(left@[idx as int], right@[idx as int]);
            assert(gap_fits(left@[idx as int], right@[idx as int]));
        }
        sum = sum + (diff * diff) as i64;
        idx = idx + 1;
    }
    sum
}

} // verus!
