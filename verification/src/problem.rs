//! An immutable problem instance: points, pairwise constraints, the target
//! cluster count `k`, and the penalty weight `lambda`.
//!
//! Constraints are kept twice: once as a canonical list of pairs `a < b`
//! (each unordered pair at most once), and once as a per-element adjacency
//! derived from that list, so that the infeasibility increment of one
//! element scans only the constraints touching it.

use vstd::prelude::*;
use crate::{COORD_LIMIT, DIM_LIMIT, SIZE_LIMIT};
use crate::cluster::Cluster;
use crate::geometry::{
    coord_sum, dist, dist_sum, is_centroid, point_distance, point_in_range,
};
use crate::math::{imax, ISQRT_LIMIT};
use crate::partition::{spec_fitness, Partition};

verus! {

/// The two flavours of pairwise constraint.
#[derive(Clone, Copy, Debug, PartialEq, Eq, Structural)]
pub enum ConstraintKind {
    MustLink,
    CannotLink,
}

/// A constraint over the unordered pair `{a, b}`, stored with `a < b`.
#[derive(Clone, Copy, Debug, PartialEq, Eq, Structural)]
pub struct Constraint {
    pub a: usize,
    pub b: usize,
    pub kind: ConstraintKind,
}

/// One adjacency entry: a constraint of some element against `other`.
#[derive(Clone, Copy, Debug, PartialEq, Eq, Structural)]
pub struct Link {
    pub other: usize,
    pub kind: ConstraintKind,
}

/// Why an instance was rejected at construction.
#[derive(Clone, Copy, Debug, PartialEq, Eq, Structural)]
pub enum ProblemError {
    /// Inconsistent row lengths, out-of-range coordinates or sizes, or
    /// constraints that do not name a pair `a < b` of distinct points once.
    MalformedInput,
    /// No points, no constraints (the penalty weight would be undefined),
    /// or a cluster count outside `1..=n`.
    DegenerateInstance,
}

/// The adjacency of element `e`: every constraint of `cs` touching `e`,
/// in list order, seen from `e`.
pub open spec fn links_of(cs: Seq<Constraint>, e: int) -> Seq<Link>
    decreases cs.len(),
{
    if cs.len() == 0 {
        Seq::empty()
    } else {
        let rest = links_of(cs.drop_last(), e);
        let c = cs.last();
        if c.a == e {
            rest.push(Link { other: c.b, kind: c.kind })
        } else if c.b == e {
            rest.push(Link { other: c.a, kind: c.kind })
        } else {
            rest
        }
    }
}

/// Whether assignment `asg` violates constraint `c`: a must-link pair in
/// different clusters, or a cannot-link pair in the same cluster. Pairs with
/// an unassigned endpoint violate nothing.
pub open spec fn violated(c: Constraint, asg: Seq<Option<usize>>) -> bool {
    &&& c.a < asg.len()
    &&& c.b < asg.len()
    &&& match (asg[c.a as int], asg[c.b as int]) {
        (Some(x), Some(y)) => if c.kind == ConstraintKind::MustLink {
            x != y
        } else {
            x == y
        },
        _ => false,
    }
}

/// Number of constraints of `cs` violated by `asg`.
pub open spec fn count_violations(cs: Seq<Constraint>, asg: Seq<Option<usize>>) -> int
    decreases cs.len(),
{
    if cs.len() == 0 {
        0
    } else {
        count_violations(cs.drop_last(), asg) + if violated(cs.last(), asg) {
            1int
        } else {
            0
        }
    }
}

/// A constraint and its endpoint-swapped mirror are violated by exactly the
/// same assignments: infeasibility does not depend on the orientation in
/// which a pair is stored.
pub proof fn lemma_violated_symmetric(c: Constraint, asg: Seq<Option<usize>>)
    ensures
        violated(c, asg) == violated(Constraint { a: c.b, b: c.a, kind: c.kind }, asg),
{
}

/// Removing one constraint removes exactly its own violation from the count.
proof fn lemma_count_violations_remove(cs: Seq<Constraint>, i: int, asg: Seq<Option<usize>>)
    requires
        0 <= i < cs.len(),
    ensures
        count_violations(cs, asg) == count_violations(cs.remove(i), asg) + if violated(
            cs[i],
            asg,
        ) {
            1int
        } else {
            0
        },
    decreases cs.len(),
{
    if i == cs.len() - 1 {
        assert(cs.remove(i) =~= cs.drop_last());
    } else {
        assert(cs.remove(i).drop_last() =~= cs.drop_last().remove(i));
        assert(cs.remove(i).last() == cs.last());
        lemma_count_violations_remove(cs.drop_last(), i, asg);
    }
}

/// The total count of violated constraints does not depend on the order in
/// which the constraint list is walked: each violated pair is counted
/// exactly once, whatever the iteration order.
pub proof fn lemma_count_violations_order_independent(
    cs1: Seq<Constraint>,
    cs2: Seq<Constraint>,
    asg: Seq<Option<usize>>,
)
    requires
        cs1.to_multiset() == cs2.to_multiset(),
    ensures
        count_violations(cs1, asg) == count_violations(cs2, asg),
    decreases cs1.len(),
{
    broadcast use vstd::seq_lib::group_to_multiset_ensures;

    if cs1.len() == 0 {
        assert(cs1.to_multiset().len() == cs1.len());
        assert(cs2.to_multiset().len() == cs2.len());
        assert(cs2.len() == 0);
    } else {
        let x = cs1.last();
        assert(cs1.contains(x)) by {
            assert(cs1[cs1.len() - 1] == x);
        }
        assert(cs2.to_multiset().count(x) > 0);
        assert(cs2.contains(x));
        let j = choose|j: int| 0 <= j < cs2.len() && cs2[j] == x;
        lemma_count_violations_remove(cs2, j, asg);
        assert(cs1.drop_last() =~= cs1.remove(cs1.len() - 1));
        assert(cs1.remove(cs1.len() - 1).to_multiset() =~= cs1.to_multiset().remove(x));
        assert(cs2.remove(j).to_multiset() =~= cs2.to_multiset().remove(x));
        lemma_count_violations_order_independent(cs1.drop_last(), cs2.remove(j), asg);
    }
}

/// New violations incurred by placing some element into cluster `cluster`,
/// as seen from one adjacency entry.
pub open spec fn link_penalty(l: Link, cluster: int, asg: Seq<Option<usize>>) -> int {
    if l.other < asg.len() {
        match asg[l.other as int] {
            Some(o) => if (l.kind == ConstraintKind::CannotLink && o == cluster) || (l.kind
                == ConstraintKind::MustLink && o != cluster) {
                1int
            } else {
                0
            },
            None => 0,
        }
    } else {
        0
    }
}

/// New violations incurred by placing the element whose adjacency is `links`
/// into cluster `cluster`, given the (possibly partial) assignment `asg`.
pub open spec fn delta_links(links: Seq<Link>, cluster: int, asg: Seq<Option<usize>>) -> int
    decreases links.len(),
{
    if links.len() == 0 {
        0
    } else {
        delta_links(links.drop_last(), cluster, asg) + link_penalty(links.last(), cluster, asg)
    }
}

/// Largest distance from `data[i]` to any of `data[..j]`.
pub open spec fn row_max(data: Seq<Seq<u64>>, i: int, j: int) -> int
    decreases j,
{
    if j <= 0 {
        0
    } else {
        imax(row_max(data, i, j - 1), dist(data[i], data[j - 1]))
    }
}

/// Largest distance within all ordered pairs drawn from `data[..i]` x `data`.
pub open spec fn rows_max(data: Seq<Seq<u64>>, i: int) -> int
    decreases i,
{
    if i <= 0 {
        0
    } else {
        imax(rows_max(data, i - 1), row_max(data, i - 1, data.len() as int))
    }
}

/// Largest pairwise distance among all points.
pub open spec fn max_dist(data: Seq<Seq<u64>>) -> int {
    rows_max(data, data.len() as int)
}

/// Mean distance from the members of `cl` to its stored centroid; zero for a
/// cluster of at most one member.
pub open spec fn spec_intra(data: Seq<Seq<u64>>, cl: Cluster) -> int {
    if cl.spec_members().len() <= 1 {
        0
    } else {
        dist_sum(data, cl.spec_centroid(), cl.spec_members()) / (cl.spec_members().len() as int)
    }
}

/// Sum of the per-cluster mean distances.
pub open spec fn intra_sum(data: Seq<Seq<u64>>, clusters: Seq<Cluster>) -> int
    decreases clusters.len(),
{
    if clusters.len() == 0 {
        0
    } else {
        intra_sum(data, clusters.drop_last()) + spec_intra(data, clusters.last())
    }
}

/// General deviation: mean of the per-cluster mean distances to centroid.
pub open spec fn spec_deviation(data: Seq<Seq<u64>>, clusters: Seq<Cluster>) -> int {
    intra_sum(data, clusters) / (clusters.len() as int)
}

/// Malformed instance data: inconsistent rows, out-of-range coordinates or
/// sizes, or a constraint list that is not a duplicate-free list of pairs
/// `a < b` of point indices.
pub open spec fn malformed_instance(data: Seq<Seq<u64>>, cs: Seq<Constraint>) -> bool {
    ||| data.len() > SIZE_LIMIT
    ||| data.len() >= 1 && (data[0].len() < 1 || data[0].len() > DIM_LIMIT)
    ||| exists|i: int| 0 <= i < data.len() && (#[trigger] data[i]).len() != data[0].len()
    ||| exists|i: int| 0 <= i < data.len() && !point_in_range(#[trigger] data[i])
    ||| exists|i: int|
        0 <= i < cs.len() && !((#[trigger] cs[i]).a < cs[i].b && cs[i].b < data.len())
    ||| exists|i: int, j: int|
        0 <= i < j < cs.len() && (#[trigger] cs[i]).a == (#[trigger] cs[j]).a && cs[i].b
            == cs[j].b
}

/// Degenerate instance: nothing to cluster, an undefined penalty weight, or
/// a cluster count outside `1..=n`.
pub open spec fn degenerate_instance(data: Seq<Seq<u64>>, cs: Seq<Constraint>, k: int) -> bool {
    ||| data.len() == 0
    ||| cs.len() == 0
    ||| k < 1
    ||| k > data.len()
}

#[derive(Debug)]
pub struct Problem {
    data: Vec<Vec<u64>>,
    constraints: Vec<Constraint>,
    links: Vec<Vec<Link>>,
    k: usize,
    lambda: u64,
}

impl Problem {
    /// The points, as sequences of coordinates.
    pub closed spec fn spec_data(self) -> Seq<Seq<u64>> {
        self.data@.map_values(|p: Vec<u64>| p@)
    }

    /// The canonical constraint list.
    pub closed spec fn spec_constraints(self) -> Seq<Constraint> {
        self.constraints@
    }

    /// The per-element constraint adjacency.
    pub closed spec fn spec_links(self) -> Seq<Seq<Link>> {
        self.links@.map_values(|l: Vec<Link>| l@)
    }

    /// The target number of clusters.
    pub closed spec fn spec_k(self) -> int {
        self.k as int
    }

    /// The constraint penalty weight.
    pub closed spec fn spec_lambda(self) -> int {
        self.lambda as int
    }

    /// Number of points.
    pub open spec fn spec_n(self) -> int {
        self.spec_data().len() as int
    }

    /// Dimension of the points.
    pub open spec fn spec_dim(self) -> int {
        self.spec_data()[0].len() as int
    }

    /// A well-formed instance: in-range points of one dimension, a
    /// duplicate-free canonical constraint list over pairs `a < b`, the
    /// adjacency derived from it, `1 <= k <= n`, and `lambda` the floor
    /// quotient of the largest pairwise distance by the constraint count.
    pub open spec fn wf(self) -> bool {
        &&& 1 <= self.spec_n() <= SIZE_LIMIT
        &&& 1 <= self.spec_dim() <= DIM_LIMIT
        &&& forall|i: int|
            0 <= i < self.spec_n() ==> (#[trigger] self.spec_data()[i]).len() == self.spec_dim()
        &&& forall|i: int|
            0 <= i < self.spec_n() ==> point_in_range(#[trigger] self.spec_data()[i])
        &&& 1 <= self.spec_k() <= self.spec_n()
        &&& 1 <= self.spec_constraints().len()
        &&& forall|i: int|
            0 <= i < self.spec_constraints().len() ==> (#[trigger] self.spec_constraints()[i]).a
                < self.spec_constraints()[i].b && self.spec_constraints()[i].b < self.spec_n()
        &&& forall|i: int, j: int|
            0 <= i < j < self.spec_constraints().len() ==> !((#[trigger] self.spec_constraints()[i]).a
                == (#[trigger] self.spec_constraints()[j]).a && self.spec_constraints()[i].b
                == self.spec_constraints()[j].b)
        &&& self.spec_links().len() == self.spec_n()
        &&& forall|e: int|
            0 <= e < self.spec_n() ==> #[trigger] self.spec_links()[e] == links_of(
                self.spec_constraints(),
                e,
            )
        &&& self.spec_lambda() == max_dist(self.spec_data()) / (
        self.spec_constraints().len() as int)
    }

    /// Returns a point given its index.
    pub fn data(&self, index: usize) -> (r: &Vec<u64>)
        requires
            self.wf(),
            index < self.spec_n(),
        ensures
            r@ == self.spec_data()[index as int],
    {
        &self.data[index]
    }

    /// Returns the target number of clusters.
    pub fn k(&self) -> (r: usize)
        ensures
            r == self.spec_k(),
    {
        self.k
    }

    /// Returns the number of points.
    pub fn len(&self) -> (r: usize)
        ensures
            r == self.spec_n(),
    {
        self.data.len()
    }

    /// Returns the penalty weight.
    pub fn lambda(&self) -> (r: u64)
        ensures
            r == self.spec_lambda(),
    {
        self.lambda
    }

    /// Returns a copy of the data vector.
    pub fn get_data(&self) -> (r: Vec<Vec<u64>>)
        ensures
            r@.map_values(|p: Vec<u64>| p@) =~= self.spec_data(),
    {
        let mut out: Vec<Vec<u64>> = Vec::new();
        let n = self.data.len();
        let mut i: usize = 0;
        while i < n
            invariant
                n == self.data@.len(),
                i <= n,
                out@.len() == i,
                forall|e: int| 0 <= e < i ==> (#[trigger] out@[e])@ == self.spec_data()[e],
            decreases n - i,
        {
            let mut p: Vec<u64> = Vec::new();
            let d = self.data[i].len();
            let mut j: usize = 0;
            while j < d
                invariant
                    i < self.data@.len(),
                    d == self.data@[i as int]@.len(),
                    j <= d,
                    p@.len() == j,
                    forall|c: int| 0 <= c < j ==> #[trigger] p@[c] == self.data@[i as int]@[c],
                decreases d - j,
            {
                p.push(self.data[i][j]);
                j = j + 1;
            }
            proof {
                assert(p@ =~= self.spec_data()[i as int]);
            }
            out.push(p);
            i = i + 1;
        }
        out
    }

    /// Euclidean distance between points `i` and `j`, exact to the floor.
    pub fn distance(&self, i: usize, j: usize) -> (r: u64)
        requires
            self.wf(),
            i < self.spec_n(),
            j < self.spec_n(),
        ensures
            r as int == dist(self.spec_data()[i as int], self.spec_data()[j as int]),
            r < ISQRT_LIMIT,
    {
        proof {
            assert(self.spec_data()[i as int] == self.data@[i as int]@);
            assert(self.spec_data()[j as int] == self.data@[j as int]@);
        }
        point_distance(&self.data[i], &self.data[j])
    }

    /// Infeasibility increment: the number of new constraint violations
    /// incurred by assigning `element` to `new_cluster`, given the current
    /// (possibly partial) assignment. Scans only the constraints touching
    /// `element`.
    pub fn inf_insert(
        &self,
        element: usize,
        new_cluster: usize,
        assignment: &Vec<Option<usize>>,
    ) -> (r: usize)
        requires
            self.wf(),
            element < self.spec_n(),
            assignment@.len() == self.spec_n(),
        ensures
            r as int == delta_links(
                links_of(self.spec_constraints(), element as int),
                new_cluster as int,
                assignment@,
            ),
    {
        proof {
            lemma_links_of_in_range(
                self.spec_constraints(),
                element as int,
                self.spec_n(),
            );
            assert(self.spec_links()[element as int] == links_of(
                self.spec_constraints(),
                element as int,
            ));
        }
        let links = &self.links[element];
        let ghost lseq = links@;
        let m = links.len();
        let mut acc: usize = 0;
        let mut i: usize = 0;
        while i < m
            invariant
                lseq == links@,
                lseq == links_of(self.spec_constraints(), element as int),
                forall|t: int| 0 <= t < lseq.len() ==> (#[trigger] lseq[t]).other < assignment@.len(),
                m == lseq.len(),
                i <= m,
                acc <= i,
                acc as int == delta_links(lseq.take(i as int), new_cluster as int, assignment@),
            decreases m - i,
        {
            let link = links[i];
            proof {
                assert(lseq.take(i + 1).drop_last() =~= lseq.take(i as int));
                assert(lseq.take(i + 1).last() == lseq[i as int]);
            }
            match assignment[link.other] {
                Some(o) => {
                    let hit = if matches!(link.kind, ConstraintKind::CannotLink) {
                        o == new_cluster
                    } else {
                        o != new_cluster
                    };
                    if hit {
                        acc = acc + 1;
                    }
                },
                None => {},
            }
            i = i + 1;
        }
        proof {
            assert(lseq.take(m as int) =~= lseq);
        }
        acc
    }

    /// Total infeasibility of a complete assignment: the number of violated
    /// constraints, each unordered pair counted exactly once.
    pub fn calc_infeasiblity(&self, assignment: &Vec<Option<usize>>) -> (r: usize)
        requires
            self.wf(),
            assignment@.len() == self.spec_n(),
        ensures
            r as int == count_violations(self.spec_constraints(), assignment@),
            r <= self.spec_constraints().len(),
    {
        let ghost cs = self.constraints@;
        let m = self.constraints.len();
        let mut acc: usize = 0;
        let mut i: usize = 0;
        while i < m
            invariant
                cs == self.constraints@,
                self.wf(),
                assignment@.len() == self.spec_n(),
                m == cs.len(),
                i <= m,
                acc <= i,
                acc as int == count_violations(cs.take(i as int), assignment@),
            decreases m - i,
        {
            let c = self.constraints[i];
            proof {
                assert(cs.take(i + 1).drop_last() =~= cs.take(i as int));
                assert(cs.take(i + 1).last() == cs[i as int]);
                assert(c.a < assignment@.len() && c.b < assignment@.len());
            }
            match (assignment[c.a], assignment[c.b]) {
                (Some(x), Some(y)) => {
                    let hit = if matches!(c.kind, ConstraintKind::MustLink) {
                        x != y
                    } else {
                        x == y
                    };
                    if hit {
                        acc = acc + 1;
                    }
                },
                _ => {},
            }
            i = i + 1;
        }
        proof {
            assert(cs.take(m as int) =~= cs);
        }
        acc
    }

    /// Componentwise floor mean of the members of a nonempty cluster.
    pub fn calc_centroid(&self, cluster: &Cluster) -> (r: Vec<u64>)
        requires
            self.wf(),
            cluster.wf(self.spec_n(), self.spec_dim()),
            cluster.spec_members().len() >= 1,
        ensures
            is_centroid(self.spec_data(), cluster.spec_members(), r@, self.spec_dim()),
            point_in_range(r@),
            r@.len() == self.spec_dim(),
    {
        let members = cluster.elements();
        let ghost ms = members@;
        let count = members.len();
        let dim = self.data[0].len();
        let mut out: Vec<u64> = Vec::new();
        let mut j: usize = 0;
        while j < dim
            invariant
                self.wf(),
                ms == members@,
                forall|t: int| 0 <= t < ms.len() ==> (#[trigger] ms[t]) < self.spec_n(),
                count == ms.len(),
                1 <= count,
                dim == self.spec_dim(),
                j <= dim,
                out@.len() == j,
                forall|c: int|
                    0 <= c < j ==> #[trigger] out@[c] == coord_sum(self.spec_data(), ms, c) / (
                    ms.len() as int),
                point_in_range(out@),
            decreases dim - j,
        {
            let mut sum: u128 = 0;
            let mut t: usize = 0;
            while t < count
                invariant
                    self.wf(),
                    ms == members@,
                    forall|u: int| 0 <= u < ms.len() ==> (#[trigger] ms[u]) < self.spec_n(),
                    count == ms.len(),
                    j < self.spec_dim(),
                    t <= count,
                    sum as int == coord_sum(self.spec_data(), ms.take(t as int), j as int),
                    sum as int <= t * 0xFF_FFFF_FFFF,
                decreases count - t,
            {
                let e = members[t];
                proof {
                    assert(ms.take(t + 1).drop_last() =~= ms.take(t as int));
                    assert(ms.take(t + 1).last() == ms[t as int]);
                    assert(self.spec_data()[ms[t as int] as int].len() == self.spec_dim());
                    assert(point_in_range(self.spec_data()[ms[t as int] as int]));
                }
                sum = sum + (self.data[e][j] as u128);
                t = t + 1;
            }
            proof {
                assert(ms.take(count as int) =~= ms);
                lemma_floor_mean_in_range(
                    coord_sum(self.spec_data(), ms, j as int),
                    ms.len() as int,
                    COORD_LIMIT as int,
                );
            }
            let mean: u128 = sum / (count as u128);
            out.push(mean as u64);
            j = j + 1;
        }
        out
    }

    /// Mean distance from the members of a nonempty cluster to its stored
    /// centroid; zero for a singleton cluster.
    pub fn intra_cluster_distance(&self, cluster: &Cluster) -> (r: u64)
        requires
            self.wf(),
            cluster.wf(self.spec_n(), self.spec_dim()),
            cluster.spec_members().len() >= 1,
        ensures
            r as int == spec_intra(self.spec_data(), *cluster),
            r < ISQRT_LIMIT,
    {
        let members = cluster.elements();
        let count = members.len();
        if count <= 1 {
            return 0;
        }
        let ghost ms = members@;
        proof {
            assert(ms == cluster.spec_members());
        }
        let centroid = cluster.centroid();
        let mut sum: u128 = 0;
        let mut t: usize = 0;
        while t < count
            invariant
                self.wf(),
                ms == members@,
                ms == cluster.spec_members(),
                centroid@ == cluster.spec_centroid(),
                cluster.wf(self.spec_n(), self.spec_dim()),
                count == ms.len(),
                t <= count,
                sum as int == dist_sum(self.spec_data(), centroid@, ms.take(t as int)),
                sum as int <= t * 0xFFFF_FFFF_FFFF,
            decreases count - t,
        {
            let e = members[t];
            proof {
                assert(ms.take(t + 1).drop_last() =~= ms.take(t as int));
                assert(ms.take(t + 1).last() == ms[t as int]);
                assert(cluster.spec_members()[t as int] < self.spec_n());
                assert(ms[t as int] < self.spec_n());
                assert(self.spec_data()[ms[t as int] as int].len() == self.spec_dim());
                assert(point_in_range(self.spec_data()[ms[t as int] as int]));
            }
            let d = point_distance(&self.data[e], centroid);
            sum = sum + (d as u128);
            t = t + 1;
        }
        proof {
            assert(ms.take(count as int) =~= ms);
            lemma_floor_mean_in_range(
                dist_sum(self.spec_data(), centroid@, ms),
                ms.len() as int,
                (ISQRT_LIMIT - 1) as int,
            );
        }
        let mean: u128 = sum / (count as u128);
        mean as u64
    }

    /// General deviation: mean of the per-cluster mean distances, over a
    /// vector of nonempty clusters.
    pub fn general_deviation(&self, clusters: &Vec<Cluster>) -> (r: u64)
        requires
            self.wf(),
            clusters@.len() >= 1,
            forall|c: int|
                0 <= c < clusters@.len() ==> (#[trigger] clusters@[c]).wf(
                    self.spec_n(),
                    self.spec_dim(),
                ),
            forall|c: int|
                0 <= c < clusters@.len() ==> (#[trigger] clusters@[c]).spec_members().len() >= 1,
        ensures
            r as int == spec_deviation(self.spec_data(), clusters@),
            r < ISQRT_LIMIT,
    {
        let ghost cls = clusters@;
        let count = clusters.len();
        let mut sum: u128 = 0;
        let mut t: usize = 0;
        while t < count
            invariant
                self.wf(),
                cls == clusters@,
                count == cls.len(),
                forall|c: int|
                    0 <= c < cls.len() ==> (#[trigger] cls[c]).wf(self.spec_n(), self.spec_dim()),
                forall|c: int| 0 <= c < cls.len() ==> (#[trigger] cls[c]).spec_members().len() >= 1,
                t <= count,
                sum as int == intra_sum(self.spec_data(), cls.take(t as int)),
                sum as int <= t * 0xFFFF_FFFF_FFFF,
            decreases count - t,
        {
            proof {
                assert(cls.take(t + 1).drop_last() =~= cls.take(t as int));
                assert(cls.take(t + 1).last() == cls[t as int]);
            }
            let d = self.intra_cluster_distance(&clusters[t]);
            sum = sum + (d as u128);
            t = t + 1;
        }
        proof {
            assert(cls.take(count as int) =~= cls);
            lemma_floor_mean_in_range(
                intra_sum(self.spec_data(), cls),
                cls.len() as int,
                (ISQRT_LIMIT - 1) as int,
            );
            lemma_intra_sum_nonneg(self.spec_data(), cls);
        }
        let mean: u128 = sum / (count as u128);
        mean as u64
    }
}

impl Problem {
    /// Builds an instance from points, a canonical constraint list (pairs
    /// `a < b`, each unordered pair at most once) and a cluster count.
    /// Rejects malformed data, then degenerate instances; otherwise derives
    /// the per-element adjacency and computes `lambda` as the largest
    /// pairwise distance divided by the number of constraints.
    pub fn new(data: Vec<Vec<u64>>, constraints: Vec<Constraint>, k: usize) -> (r: Result<
        Problem,
        ProblemError,
    >)
        ensures
            r matches Ok(p) ==> p.wf() && p.spec_data() == data@.map_values(|v: Vec<u64>| v@)
                && p.spec_constraints() == constraints@ && p.spec_k() == k as int,
            (r matches Ok(p)) <==> !malformed_instance(
                data@.map_values(|v: Vec<u64>| v@),
                constraints@,
            ) && !degenerate_instance(
                data@.map_values(|v: Vec<u64>| v@),
                constraints@,
                k as int,
            ),
            r == Err::<Problem, ProblemError>(ProblemError::MalformedInput)
                <==> malformed_instance(data@.map_values(|v: Vec<u64>| v@), constraints@),
            r == Err::<Problem, ProblemError>(ProblemError::DegenerateInstance)
                <==> !malformed_instance(data@.map_values(|v: Vec<u64>| v@), constraints@)
                && degenerate_instance(
                data@.map_values(|v: Vec<u64>| v@),
                constraints@,
                k as int,
            ),
    {
        let ghost dv = data@.map_values(|v: Vec<u64>| v@);
        let ghost cv = constraints@;
        let n = data.len();
        let m = constraints.len();
        if n == 0 {
            if m > 0 {
                proof {
                    assert(!(cv[0].a < cv[0].b && cv[0].b < dv.len()));
                }
                return Err(ProblemError::MalformedInput);
            }
            return Err(ProblemError::DegenerateInstance);
        }
        if n > SIZE_LIMIT {
            return Err(ProblemError::MalformedInput);
        }
        let dim = data[0].len();
        if dim < 1 || dim > DIM_LIMIT {
            return Err(ProblemError::MalformedInput);
        }
        let mut i: usize = 0;
        while i < n
            invariant
                dv == data@.map_values(|v: Vec<u64>| v@),
                n == dv.len(),
                1 <= n,
                dim == dv[0].len(),
                i <= n,
                forall|e: int| 0 <= e < i ==> (#[trigger] dv[e]).len() == dim,
                forall|e: int| 0 <= e < i ==> point_in_range(#[trigger] dv[e]),
            decreases n - i,
        {
            if data[i].len() != dim {
                proof {
                    assert(dv[i as int].len() != dv[0].len());
                }
                return Err(ProblemError::MalformedInput);
            }
            let mut j: usize = 0;
            while j < dim
                invariant
                    dv == data@.map_values(|v: Vec<u64>| v@),
                    i < dv.len(),
                    dv[i as int].len() == dim,
                    j <= dim,
                    forall|c: int| 0 <= c < j ==> #[trigger] dv[i as int][c] <= COORD_LIMIT,
                decreases dim - j,
            {
                if data[i][j] > COORD_LIMIT {
                    proof {
                        assert(dv[i as int][j as int] > COORD_LIMIT);
                        assert(!point_in_range(dv[i as int]));
                    }
                    return Err(ProblemError::MalformedInput);
                }
                j = j + 1;
            }
            proof {
                assert(point_in_range(dv[i as int]));
            }
            i = i + 1;
        }
        let mut ci: usize = 0;
        while ci < m
            invariant
                cv == constraints@,
                dv == data@.map_values(|v: Vec<u64>| v@),
                n == dv.len(),
                m == cv.len(),
                ci <= m,
                forall|e: int|
                    0 <= e < ci ==> ((#[trigger] cv[e]).a < cv[e].b && cv[e].b < n),
            decreases m - ci,
        {
            let c = constraints[ci];
            if !(c.a < c.b && c.b < n) {
                return Err(ProblemError::MalformedInput);
            }
            ci = ci + 1;
        }
        let mut di: usize = 0;
        while di < m
            invariant
                cv == constraints@,
                m == cv.len(),
                di <= m,
                forall|e: int, f: int|
                    0 <= e < di && e < f < m ==> !((#[trigger] cv[e]).a == (#[trigger] cv[f]).a
                        && cv[e].b == cv[f].b),
            decreases m - di,
        {
            let mut dj: usize = di + 1;
            while dj < m
                invariant
                    cv == constraints@,
                    m == cv.len(),
                    di < dj <= m || (di + 1 == dj && dj > m),
                    di < m,
                    forall|f: int|
                        di < f < dj ==> !((#[trigger] cv[f]).a == cv[di as int].a && cv[f].b
                            == cv[di as int].b),
                decreases m - dj,
            {
                if constraints[di].a == constraints[dj].a && constraints[di].b
                    == constraints[dj].b {
                    return Err(ProblemError::MalformedInput);
                }
                dj = dj + 1;
            }
            di = di + 1;
        }
        proof {
            assert(!malformed_instance(dv, cv));
        }
        if m == 0 || k < 1 || k > n {
            return Err(ProblemError::DegenerateInstance);
        }
        // Derive the per-element adjacency from the canonical list.
        let mut links: Vec<Vec<Link>> = Vec::new();
        let mut e: usize = 0;
        while e < n
            invariant
                cv == constraints@,
                m == cv.len(),
                e <= n,
                links@.len() == e,
                forall|t: int| 0 <= t < e ==> (#[trigger] links@[t])@ == links_of(cv, t),
            decreases n - e,
        {
            let mut le: Vec<Link> = Vec::new();
            let mut w: usize = 0;
            while w < m
                invariant
                    cv == constraints@,
                    m == cv.len(),
                    w <= m,
                    le@ == links_of(cv.take(w as int), e as int),
                decreases m - w,
            {
                let c = constraints[w];
                proof {
                    assert(cv.take(w + 1).drop_last() =~= cv.take(w as int));
                    assert(cv.take(w + 1).last() == cv[w as int]);
                }
                if c.a == e {
                    le.push(Link { other: c.b, kind: c.kind });
                } else if c.b == e {
                    le.push(Link { other: c.a, kind: c.kind });
                }
                w = w + 1;
            }
            proof {
                assert(cv.take(m as int) =~= cv);
            }
            links.push(le);
            e = e + 1;
        }
        // Largest pairwise distance, for the penalty weight.
        let mut best: u64 = 0;
        let mut bi: usize = 0;
        while bi < n
            invariant
                dv == data@.map_values(|v: Vec<u64>| v@),
                n == dv.len(),
                1 <= n,
                dim == dv[0].len(),
                1 <= dim <= DIM_LIMIT,
                forall|t: int| 0 <= t < n ==> (#[trigger] dv[t]).len() == dim,
                forall|t: int| 0 <= t < n ==> point_in_range(#[trigger] dv[t]),
                bi <= n,
                best as int == rows_max(dv, bi as int),
            decreases n - bi,
        {
            let mut bj: usize = 0;
            while bj < n
                invariant
                    dv == data@.map_values(|v: Vec<u64>| v@),
                    n == dv.len(),
                    1 <= n,
                    dim == dv[0].len(),
                    1 <= dim <= DIM_LIMIT,
                    forall|t: int| 0 <= t < n ==> (#[trigger] dv[t]).len() == dim,
                    forall|t: int| 0 <= t < n ==> point_in_range(#[trigger] dv[t]),
                    bi < n,
                    bj <= n,
                    best as int == imax(rows_max(dv, bi as int), row_max(dv, bi as int, bj as int)),
                decreases n - bj,
            {
                proof {
                    assert(dv[bi as int] == data@[bi as int]@);
                    assert(dv[bj as int] == data@[bj as int]@);
                }
                let d = point_distance(&data[bi], &data[bj]);
                if d > best {
                    best = d;
                }
                bj = bj + 1;
            }
            bi = bi + 1;
        }
        let lambda: u64 = best / (m as u64);
        let p = Problem { data, constraints, links, k, lambda };
        proof {
            assert(p.spec_data() == dv);
            assert(p.spec_constraints() == cv);
            assert(p.spec_links().len() == n);
            assert forall|t: int| 0 <= t < n implies #[trigger] p.spec_links()[t] == links_of(
                cv,
                t,
            ) by {
                assert(p.spec_links()[t] == p.links@[t]@);
            }
            assert(p.wf());
        }
        Ok(p)
    }
}

impl Problem {
    /// The objective of a complete, valid partition: general deviation plus
    /// `lambda` times the total infeasibility. Lower is better.
    pub fn fitness(&self, partition: &Partition) -> (r: u128)
        requires
            self.wf(),
            partition.inv(),
            partition.compatible(*self),
            partition.complete(),
            partition.spec_valid(),
        ensures
            r as int == spec_fitness(*self, *partition),
    {
        let dev = self.general_deviation(partition.clusters());
        let inf = self.calc_infeasiblity(partition.cluster_index());
        proof {
            assert((self.lambda as int) * (inf as int) <= (u64::MAX as int) * (u64::MAX as int))
                by (nonlinear_arith)
                requires
                    0 <= self.lambda as int <= u64::MAX as int,
                    0 <= inf as int <= u64::MAX as int,
            ;
        }
        let weighted: u128 = (self.lambda as u128) * (inf as u128);
        (dev as u128) + weighted
    }
}

/// Every adjacency entry of `links_of` names another in-range element.
pub proof fn lemma_links_of_in_range(cs: Seq<Constraint>, e: int, n: int)
    requires
        forall|i: int|
            0 <= i < cs.len() ==> (#[trigger] cs[i]).a < cs[i].b && cs[i].b < n,
    ensures
        forall|t: int|
            0 <= t < links_of(cs, e).len() ==> (#[trigger] links_of(cs, e)[t]).other < n,
    decreases cs.len(),
{
    if cs.len() > 0 {
        lemma_links_of_in_range(cs.drop_last(), e, n);
        assert(cs.last() == cs[cs.len() - 1]);
        assert(forall|i: int|
            0 <= i < cs.drop_last().len() ==> cs.drop_last()[i] == cs[i]);
    }
}

/// A floor mean of `count >= 1` values whose sum is at most `count * bound`
/// is itself at most `bound`.
proof fn lemma_floor_mean_in_range(sum: int, count: int, bound: int)
    requires
        count >= 1,
        0 <= sum <= count * bound,
    ensures
        0 <= sum / count <= bound,
{
    assert(0 <= sum / count && sum / count <= bound) by (nonlinear_arith)
        requires
            count >= 1,
            0 <= sum <= count * bound,
    ;
}

/// Intra-cluster sums are nonnegative.
proof fn lemma_intra_sum_nonneg(data: Seq<Seq<u64>>, clusters: Seq<Cluster>)
    ensures
        0 <= intra_sum(data, clusters),
    decreases clusters.len(),
{
    if clusters.len() > 0 {
        lemma_intra_sum_nonneg(data, clusters.drop_last());
        let cl = clusters.last();
        if cl.spec_members().len() > 1 {
            lemma_dist_sum_nonneg(data, cl.spec_centroid(), cl.spec_members());
            assert(0 <= spec_intra(data, cl)) by (nonlinear_arith)
                requires
                    cl.spec_members().len() > 1,
                    0 <= dist_sum(data, cl.spec_centroid(), cl.spec_members()),
                    spec_intra(data, cl) == dist_sum(data, cl.spec_centroid(), cl.spec_members())
                        / (cl.spec_members().len() as int),
            ;
        }
    }
}

/// Two cluster sequences with pointwise equal members and centroids have
/// equal intra-cluster sums.
pub proof fn lemma_intra_sum_congruent(data: Seq<Seq<u64>>, c1: Seq<Cluster>, c2: Seq<Cluster>)
    requires
        c1.len() == c2.len(),
        forall|i: int|
            0 <= i < c1.len() ==> (#[trigger] c1[i]).spec_members() == (#[trigger] c2[i]).spec_members()
                && c1[i].spec_centroid() == c2[i].spec_centroid(),
    ensures
        intra_sum(data, c1) == intra_sum(data, c2),
    decreases c1.len(),
{
    if c1.len() > 0 {
        assert(forall|i: int|
            0 <= i < c1.drop_last().len() ==> (#[trigger] c1.drop_last()[i]) == c1[i]
                && (#[trigger] c2.drop_last()[i]) == c2[i]);
        lemma_intra_sum_congruent(data, c1.drop_last(), c2.drop_last());
        assert(c1.last() == c1[c1.len() - 1]);
        assert(c2.last() == c2[c2.len() - 1]);
        assert(spec_intra(data, c1.last()) == spec_intra(data, c2.last()));
    }
}

/// Distance sums are nonnegative.
pub proof fn lemma_dist_sum_nonneg(data: Seq<Seq<u64>>, c: Seq<u64>, members: Seq<usize>)
    ensures
        0 <= dist_sum(data, c, members),
    decreases members.len(),
{
    if members.len() > 0 {
        lemma_dist_sum_nonneg(data, c, members.drop_last());
        crate::math::lemma_isqrt_nonneg(
            crate::geometry::sq_dist(data[members.last() as int], c),
        );
    }
}

} // verus!
