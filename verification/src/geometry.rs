//! Euclidean geometry over fixed-point coordinates.
//!
//! The distance between two points is the floor square root of the integer
//! sum of squared coordinate differences. Centroids are componentwise floor
//! means. Everything here is exact integer arithmetic.

use vstd::prelude::*;
use crate::{COORD_LIMIT, DIM_LIMIT};
use crate::math::{isqrt, isqrt_u128, lemma_isqrt_bounds, ISQRT_ARG_LIMIT, ISQRT_LIMIT};

verus! {

/// Sum of squared coordinate differences of two points of equal dimension.
pub open spec fn sq_dist(p: Seq<u64>, q: Seq<u64>) -> int
    decreases p.len(),
{
    if p.len() == 0 {
        0
    } else {
        sq_dist(p.drop_last(), q.drop_last()) + (p.last() - q.last()) * (p.last() - q.last())
    }
}

/// Euclidean distance, rounded down to an integer.
pub open spec fn dist(p: Seq<u64>, q: Seq<u64>) -> int {
    isqrt(sq_dist(p, q))
}

/// A point is in range when every coordinate is at most `COORD_LIMIT`.
pub open spec fn point_in_range(p: Seq<u64>) -> bool {
    forall|j: int| 0 <= j < p.len() ==> #[trigger] p[j] <= COORD_LIMIT
}

/// The squared distance of two in-range points of dimension at most
/// `DIM_LIMIT` is nonnegative and strictly below the square-root domain bound.
pub proof fn lemma_sq_dist_bounds(p: Seq<u64>, q: Seq<u64>)
    requires
        p.len() == q.len(),
        point_in_range(p),
        point_in_range(q),
    ensures
        0 <= sq_dist(p, q) <= p.len() * ((COORD_LIMIT * COORD_LIMIT) as int),
    decreases p.len(),
{
    if p.len() > 0 {
        lemma_sq_dist_bounds(p.drop_last(), q.drop_last());
        let d = p.last() - q.last();
        assert(0 <= d * d <= (COORD_LIMIT * COORD_LIMIT) as int) by (nonlinear_arith)
            requires
                -(COORD_LIMIT as int) <= d <= COORD_LIMIT as int,
        ;
        assert((p.len() - 1) * ((COORD_LIMIT * COORD_LIMIT) as int)
            + (COORD_LIMIT * COORD_LIMIT) as int == p.len() * ((COORD_LIMIT
            * COORD_LIMIT) as int)) by (nonlinear_arith);
    }
}

/// The squared distance is symmetric in its two points.
pub proof fn lemma_sq_dist_symmetric(p: Seq<u64>, q: Seq<u64>)
    requires
        p.len() == q.len(),
    ensures
        sq_dist(p, q) == sq_dist(q, p),
    decreases p.len(),
{
    if p.len() > 0 {
        lemma_sq_dist_symmetric(p.drop_last(), q.drop_last());
        let a = p.last();
        let b = q.last();
        assert((a - b) * (a - b) == (b - a) * (b - a)) by (nonlinear_arith);
    }
}

/// Distance is symmetric: `dist(p, q) == dist(q, p)`.
pub proof fn lemma_dist_symmetric(p: Seq<u64>, q: Seq<u64>)
    requires
        p.len() == q.len(),
    ensures
        dist(p, q) == dist(q, p),
{
    lemma_sq_dist_symmetric(p, q);
}

/// Distance from a point to itself is zero.
pub proof fn lemma_dist_self_zero(p: Seq<u64>)
    ensures
        dist(p, p) == 0,
    decreases p.len(),
{
    if p.len() == 0 {
    } else {
        lemma_dist_self_zero(p.drop_last());
        assert(sq_dist(p, p) == sq_dist(p.drop_last(), p.drop_last()));
    }
}

/// Euclidean distance of two points, exact to the floor.
pub fn point_distance(p: &Vec<u64>, q: &Vec<u64>) -> (r: u64)
    requires
        p@.len() == q@.len() <= DIM_LIMIT,
        point_in_range(p@),
        point_in_range(q@),
    ensures
        r as int == dist(p@, q@),
        r < ISQRT_LIMIT,
{
    let dim = p.len();
    let mut acc: u128 = 0;
    let mut i: usize = 0;
    while i < dim
        invariant
            dim == p@.len() == q@.len(),
            dim <= DIM_LIMIT,
            point_in_range(p@),
            point_in_range(q@),
            i <= dim,
            acc as int == sq_dist(p@.take(i as int), q@.take(i as int)),
            acc as int <= i * ((COORD_LIMIT * COORD_LIMIT) as int),
        decreases dim - i,
    {
        let a = p[i];
        let b = q[i];
        let d: u64 = if a >= b {
            a - b
        } else {
            b - a
        };
        proof {
            let pt = p@.take(i + 1);
            let qt = q@.take(i + 1);
            assert(pt.drop_last() =~= p@.take(i as int));
            assert(qt.drop_last() =~= q@.take(i as int));
            assert(pt.last() == p@[i as int]);
            assert(qt.last() == q@[i as int]);
            assert((d as int) * (d as int) == (a - b) * (a - b)) by (nonlinear_arith)
                requires
                    d == if a >= b { a - b } else { b - a },
            ;
            assert(0 <= (d as int) * (d as int) <= (COORD_LIMIT * COORD_LIMIT) as int)
                by (nonlinear_arith)
                requires
                    0 <= d <= COORD_LIMIT,
            ;
            assert((i + 1) * ((COORD_LIMIT * COORD_LIMIT) as int) == i * ((COORD_LIMIT
                * COORD_LIMIT) as int) + (COORD_LIMIT * COORD_LIMIT) as int)
                by (nonlinear_arith);
        }
        acc = acc + (d as u128) * (d as u128);
        i = i + 1;
    }
    proof {
        assert(p@.take(dim as int) =~= p@);
        assert(q@.take(dim as int) =~= q@);
        assert(dim * ((COORD_LIMIT * COORD_LIMIT) as int) < ISQRT_ARG_LIMIT)
            by (nonlinear_arith)
            requires
                dim <= DIM_LIMIT,
        ;
    }
    isqrt_u128(acc)
}

/// Sum of coordinate `j` over the member points.
pub open spec fn coord_sum(points: Seq<Seq<u64>>, members: Seq<usize>, j: int) -> int
    decreases members.len(),
{
    if members.len() == 0 {
        0
    } else {
        coord_sum(points, members.drop_last(), j) + points[members.last() as int][j]
    }
}

/// `c` is the componentwise floor mean of the member points.
pub open spec fn is_centroid(points: Seq<Seq<u64>>, members: Seq<usize>, c: Seq<u64>, dim: int) -> bool {
    &&& c.len() == dim
    &&& forall|j: int|
        0 <= j < dim ==> #[trigger] c[j] == coord_sum(points, members, j) / (members.len() as int)
}

/// Sum of distances from the member points to `c`.
pub open spec fn dist_sum(points: Seq<Seq<u64>>, c: Seq<u64>, members: Seq<usize>) -> int
    decreases members.len(),
{
    if members.len() == 0 {
        0
    } else {
        dist_sum(points, c, members.drop_last()) + dist(points[members.last() as int], c)
    }
}

/// The centroid of a member set is determined by the members alone:
/// recomputing it without a membership change always yields the same
/// coordinates.
pub proof fn lemma_centroid_determined(
    points: Seq<Seq<u64>>,
    members: Seq<usize>,
    c1: Seq<u64>,
    c2: Seq<u64>,
    dim: int,
)
    requires
        is_centroid(points, members, c1, dim),
        is_centroid(points, members, c2, dim),
    ensures
        c1 =~= c2,
{
}

} // verus!
