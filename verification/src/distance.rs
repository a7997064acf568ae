//! Squared distances between vectors of 16-bit numbers.
use crate::layout::DIMS;
use vstd::prelude::*;

verus! {

/// The sum of the squared differences of the first `n` coordinates.
pub open spec fn sum_sq(q: Seq<i16>, v: Seq<i16>, n: int) -> int
    decreases n,
{
    if n <= 0 {
        0
    } else {
        sum_sq(q, v, n - 1) + (q[n - 1] - v[n - 1]) * (q[n - 1] - v[n - 1])
    }
}

/// The squared distance of two vectors.
pub open spec fn dist(q: Seq<i16>, v: Seq<i16>) -> u64 {
    sum_sq(q, v, DIMS as int) as u64
}

/// A difference of two 16-bit numbers, kept in 16 bits.
pub open spec fn wrap16(x: int) -> int {
    if x > i16::MAX {
        x - 0x1_0000
    } else if x < i16::MIN {
        x + 0x1_0000
    } else {
        x
    }
}

/// As [`sum_sq`], with each difference kept in 16 bits.
pub open spec fn wrapped_sum_sq(q: Seq<i16>, v: Seq<i16>, n: int) -> int
    decreases n,
{
    if n <= 0 {
        0
    } else {
        wrapped_sum_sq(q, v, n - 1) + wrap16(q[n - 1] - v[n - 1]) * wrap16(q[n - 1] - v[n - 1])
    }
}

/// The squared distance as one of eight lanes computes it: with differences
/// kept in 16 bits and their sum in 32 bits.
pub open spec fn lane_dist(q: Seq<i16>, v: Seq<i16>) -> u64 {
    (wrapped_sum_sq(q, v, DIMS as int) % 0x1_0000_0000) as u64
}

/// How far `x` lies outside `lo` to `hi`.
pub open spec fn outside(x: int, lo: int, hi: int) -> int {
    if x < lo {
        lo - x
    } else if x > hi {
        x - hi
    } else {
        0
    }
}

/// The sum of the squares of how far the first `n` coordinates lie outside
/// the box.
pub open spec fn box_sum_sq(q: Seq<i16>, lo: Seq<i16>, hi: Seq<i16>, n: int) -> int
    decreases n,
{
    if n <= 0 {
        0
    } else {
        box_sum_sq(q, lo, hi, n - 1) + outside(q[n - 1] as int, lo[n - 1] as int, hi[n - 1] as int)
            * outside(q[n - 1] as int, lo[n - 1] as int, hi[n - 1] as int)
    }
}

/// The squared distance from `q` to the box between the corners `lo` and `hi`.
pub open spec fn box_dist(q: Seq<i16>, lo: Seq<i16>, hi: Seq<i16>) -> u64 {
    box_sum_sq(q, lo, hi, DIMS as int) as u64
}

/// A vector lies in the box between the corners `lo` and `hi`.
pub open spec fn in_box(v: Seq<i16>, lo: Seq<i16>, hi: Seq<i16>) -> bool {
    forall|d: int| 0 <= d < DIMS ==> lo[d] <= #[trigger] v[d] <= hi[d]
}

/// The coordinates of a transaction: from 0 to 10000, where the two that speak
/// of the last transaction may also be -10000.
pub open spec fn is_feature_vector(v: Seq<i16>) -> bool {
    &&& v.len() == DIMS
    &&& forall|d: int|
        0 <= d < DIMS ==> (if d == 5 || d == 6 {
            -10000int
        } else {
            0int
        }) <= #[trigger] v[d] <= 10000
}

/// The largest square of a difference of two 16-bit numbers.
pub const MAX_SQ: u64 = 0xfffe_0001;

/// The square of the difference of two coordinates.
pub fn sq_diff(a: i16, b: i16) -> (r: u64)
    ensures
        r == (a - b) * (a - b),
        r <= MAX_SQ,
{
    let e: i64 = a as i64 - b as i64;
    assert(0 <= e * e <= 0xfffe_0001) by (nonlinear_arith)
        requires
            -65535 <= e <= 65535,
    ;
    (e * e) as u64
}

/// The square of how far a coordinate lies outside `lo` to `hi`.
pub fn sq_outside(x: i16, lo: i16, hi: i16) -> (r: u64)
    ensures
        r == outside(x as int, lo as int, hi as int) * outside(x as int, lo as int, hi as int),
        r <= MAX_SQ,
{
    let e: i64 = if x < lo {
        lo as i64 - x as i64
    } else if x > hi {
        x as i64 - hi as i64
    } else {
        0
    };
    assert(0 <= e * e <= 0xfffe_0001) by (nonlinear_arith)
        requires
            0 <= e <= 65535,
    ;
    (e * e) as u64
}

/// The sum of the squares of two differences, each kept in 16 bits.
pub fn sq_pair(q0: i16, v0: i16, q1: i16, v1: i16) -> (r: u32)
    ensures
        r == wrap16(q0 - v0) * wrap16(q0 - v0) + wrap16(q1 - v1) * wrap16(q1 - v1),
{
    let d0: i32 = q0.wrapping_sub(v0) as i32;
    let d1: i32 = q1.wrapping_sub(v1) as i32;
    assert(0 <= d0 * d0 <= 0x4000_0000) by (nonlinear_arith)
        requires
            -32768 <= d0 <= 32767,
    ;
    assert(0 <= d1 * d1 <= 0x4000_0000) by (nonlinear_arith)
        requires
            -32768 <= d1 <= 32767,
    ;
    (d0 * d0) as u32 + (d1 * d1) as u32
}

/// Sums of squares only grow, and stay within what their type holds.
pub proof fn lemma_sum_sq_bounds(q: Seq<i16>, v: Seq<i16>, n: int, m: int)
    requires
        0 <= n <= m,
    ensures
        0 <= sum_sq(q, v, n) <= sum_sq(q, v, m) <= m * MAX_SQ,
    decreases m,
{
    if m > 0 {
        let x = q[m - 1] - v[m - 1];
        assert(0 <= x * x <= 0xfffe_0001) by (nonlinear_arith)
            requires
                -65535 <= x <= 65535,
        ;
        if n < m {
            lemma_sum_sq_bounds(q, v, n, m - 1);
        } else {
            lemma_sum_sq_bounds(q, v, n - 1, m - 1);
        }
    }
}

pub proof fn lemma_box_sum_sq_bounds(q: Seq<i16>, lo: Seq<i16>, hi: Seq<i16>, n: int)
    requires
        0 <= n,
    ensures
        0 <= box_sum_sq(q, lo, hi, n) <= n * MAX_SQ,
    decreases n,
{
    if n > 0 {
        let x = outside(q[n - 1] as int, lo[n - 1] as int, hi[n - 1] as int);
        assert(0 <= x * x <= 0xfffe_0001) by (nonlinear_arith)
            requires
                0 <= x <= 65535,
        ;
        lemma_box_sum_sq_bounds(q, lo, hi, n - 1);
    }
}

/// The bounding box never lies further away than a vector in it.
pub proof fn law_box_bounds_from_below(q: Seq<i16>, v: Seq<i16>, lo: Seq<i16>, hi: Seq<i16>)
    requires
        in_box(v, lo, hi),
    ensures
        box_dist(q, lo, hi) <= dist(q, v),
{
    lemma_box_below(q, v, lo, hi, DIMS as int);
    lemma_box_sum_sq_bounds(q, lo, hi, DIMS as int);
    lemma_sum_sq_bounds(q, v, DIMS as int, DIMS as int);
}

proof fn lemma_box_below(q: Seq<i16>, v: Seq<i16>, lo: Seq<i16>, hi: Seq<i16>, n: int)
    requires
        in_box(v, lo, hi),
        n <= DIMS,
    ensures
        box_sum_sq(q, lo, hi, n) <= sum_sq(q, v, n),
    decreases n,
{
    if n > 0 {
        lemma_box_below(q, v, lo, hi, n - 1);
        let x = outside(q[n - 1] as int, lo[n - 1] as int, hi[n - 1] as int);
        let y = q[n - 1] - v[n - 1];
        assert(lo[n - 1] <= v[n - 1] <= hi[n - 1]);
        assert(x * x <= y * y) by (nonlinear_arith)
            requires
                0 <= x,
                x <= y || x <= -y,
        ;
    }
}

/// No difference leaves 16 bits, and the sum of the squares stays in 32 bits.
pub open spec fn fits_lanes(q: Seq<i16>, v: Seq<i16>) -> bool {
    &&& forall|d: int| 0 <= d < DIMS ==> i16::MIN <= #[trigger] q[d] - v[d] <= i16::MAX
    &&& sum_sq(q, v, DIMS as int) < 0x1_0000_0000
}

/// Where no difference leaves 16 bits and the sum stays in 32 bits, a lane
/// computes the squared distance.
pub proof fn law_lane_dist_is_the_distance(q: Seq<i16>, v: Seq<i16>)
    requires
        fits_lanes(q, v),
    ensures
        lane_dist(q, v) == dist(q, v),
{
    lemma_wrapped_is_exact(q, v, DIMS as int);
    lemma_sum_sq_bounds(q, v, DIMS as int, DIMS as int);
}

proof fn lemma_wrapped_is_exact(q: Seq<i16>, v: Seq<i16>, n: int)
    requires
        forall|d: int| 0 <= d < DIMS ==> i16::MIN <= #[trigger] q[d] - v[d] <= i16::MAX,
        n <= DIMS,
    ensures
        wrapped_sum_sq(q, v, n) == sum_sq(q, v, n),
    decreases n,
{
    if n > 0 {
        lemma_wrapped_is_exact(q, v, n - 1);
    }
}

/// Between vectors of transactions a lane computes the squared distance.
pub proof fn law_lanes_are_exact_on_features(q: Seq<i16>, v: Seq<i16>)
    requires
        is_feature_vector(q),
        is_feature_vector(v),
    ensures
        fits_lanes(q, v),
        lane_dist(q, v) == dist(q, v),
{
    assert forall|d: int| 0 <= d < DIMS implies i16::MIN <= #[trigger] q[d] - v[d]
        <= i16::MAX by {}
    lemma_feature_sum(q, v, DIMS as int);
    law_lane_dist_is_the_distance(q, v);
}

proof fn lemma_feature_sum(q: Seq<i16>, v: Seq<i16>, n: int)
    requires
        0 <= n <= DIMS,
        is_feature_vector(q),
        is_feature_vector(v),
    ensures
        sum_sq(q, v, n) <= n * 100_000_000 + (if n > 5 {
            300_000_000int
        } else {
            0int
        }) + (if n > 6 {
            300_000_000int
        } else {
            0int
        }),
    decreases n,
{
    if n > 0 {
        lemma_feature_sum(q, v, n - 1);
        let x = q[n - 1] - v[n - 1];
        assert(x * x <= 400_000_000) by (nonlinear_arith)
            requires
                -20000 <= x <= 20000,
        ;
        if n - 1 != 5 && n - 1 != 6 {
            assert(x * x <= 100_000_000) by (nonlinear_arith)
                requires
                    -10000 <= x <= 10000,
            ;
        }
    }
}

/// The sum of fourteen terms.
pub open spec fn fourteen(f: spec_fn(int) -> int) -> int {
    f(0) + f(1) + f(2) + f(3) + f(4) + f(5) + f(6) + f(7) + f(8) + f(9) + f(10) + f(11) + f(12) + f(
        13,
    )
}

/// The squared distance is the sum of the squares of all fourteen differences.
pub proof fn law_distance_counts_every_coordinate(q: Seq<i16>, v: Seq<i16>)
    ensures
        dist(q, v) == fourteen(|d: int| (q[d] - v[d]) * (q[d] - v[d])),
        dist(q, v) == dist(v, q),
{
    reveal_with_fuel(sum_sq, 15);
    lemma_sum_sq_bounds(q, v, DIMS as int, DIMS as int);
    assert forall|d: int| (q[d] - v[d]) * (q[d] - v[d]) == (v[d] - q[d]) * (v[d] - q[d]) by {
        assert((q[d] - v[d]) * (q[d] - v[d]) == (v[d] - q[d]) * (v[d] - q[d])) by (nonlinear_arith);
    }
    assert(sum_sq(q, v, 14) == sum_sq(v, q, 14));
}

/// A lane sums up the squares of all fourteen differences, each taken for the
/// 16-bit number that it is congruent to, and keeps 32 bits of the sum.
pub proof fn law_lanes_keep_their_bits(q: Seq<i16>, v: Seq<i16>, w: spec_fn(int) -> int)
    requires
        forall|d: int|
            0 <= d < 14 ==> -32768 <= #[trigger] w(d) <= 32767 && (w(d) - (q[d] - v[d])) % 65536
                == 0,
    ensures
        lane_dist(q, v) == fourteen(|d: int| w(d) * w(d)) % 4294967296,
{
    reveal_with_fuel(wrapped_sum_sq, 15);
    assert forall|d: int| 0 <= d < 14 implies #[trigger] w(d) == wrap16(q[d] - v[d]) by {}
    assert(wrapped_sum_sq(q, v, 14) == fourteen(|d: int| w(d) * w(d)));
}

/// The squared distance to a box is the sum over all fourteen coordinates of
/// the square of how far the point lies below the lower corner, or else above
/// the upper one.
pub proof fn law_box_distance_counts_every_coordinate(q: Seq<i16>, lo: Seq<i16>, hi: Seq<i16>)
    ensures
        box_dist(q, lo, hi) == fourteen(
            |d: int|
                if q[d] < lo[d] {
                    (lo[d] - q[d]) * (lo[d] - q[d])
                } else if q[d] > hi[d] {
                    (q[d] - hi[d]) * (q[d] - hi[d])
                } else {
                    0
                },
        ),
{
    reveal_with_fuel(box_sum_sq, 15);
    lemma_box_sum_sq_bounds(q, lo, hi, DIMS as int);
}

/// The distance to a box is the distance to a point in it: no box is taken
/// for nearer than it is.
pub proof fn law_box_distance_is_reached(q: Seq<i16>, lo: Seq<i16>, hi: Seq<i16>)
    requires
        forall|d: int| 0 <= d < 14 ==> #[trigger] lo[d] <= hi[d],
    ensures
        exists|v: Seq<i16>| #[trigger] in_box(v, lo, hi) && dist(q, v) == box_dist(q, lo, hi),
{
    let v = Seq::new(
        14,
        |d: int|
            if q[d] < lo[d] {
                lo[d]
            } else if q[d] > hi[d] {
                hi[d]
            } else {
                q[d]
            },
    );
    assert(in_box(v, lo, hi)) by {
        assert forall|d: int| 0 <= d < DIMS implies lo[d] <= #[trigger] v[d] <= hi[d] by {}
    }
    lemma_nearest_in_box(q, v, lo, hi, DIMS as int);
}

proof fn lemma_nearest_in_box(q: Seq<i16>, v: Seq<i16>, lo: Seq<i16>, hi: Seq<i16>, n: int)
    requires
        0 <= n <= 14,
        forall|d: int|
            0 <= d < 14 ==> #[trigger] v[d] == if q[d] < lo[d] {
                lo[d]
            } else if q[d] > hi[d] {
                hi[d]
            } else {
                q[d]
            },
    ensures
        sum_sq(q, v, n) == box_sum_sq(q, lo, hi, n),
    decreases n,
{
    if n > 0 {
        lemma_nearest_in_box(q, v, lo, hi, n - 1);
        let x = outside(q[n - 1] as int, lo[n - 1] as int, hi[n - 1] as int);
        let y = q[n - 1] - v[n - 1];
        assert(v[n - 1] == v[n - 1]);
        assert(y == x || y == -x);
        assert(x * x == y * y) by (nonlinear_arith)
            requires
                y == x || y == -x,
        ;
    }
}

} // verus!
