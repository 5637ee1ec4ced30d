//! The solution representation: a total element-to-cluster assignment kept
//! synchronized with per-cluster member sets, plus a memoized fitness.
//!
//! `cluster_index[e] == Some(c)` exactly when cluster `c`'s member set holds
//! `e`, through every mutation. A partition is *valid* when no cluster is
//! empty; only valid partitions are accepted as final results.

use vstd::prelude::*;
use vstd::pervasive::VecAdditionalExecFns;
use crate::cluster::Cluster;
use crate::geometry::is_centroid;
use crate::problem::{count_violations, spec_deviation, Problem};
use crate::rng::RandomSource;

verus! {

/// The objective value of a partition for a problem: general deviation plus
/// `lambda` times the number of violated constraints. Lower is better.
pub open spec fn spec_fitness(prob: Problem, p: Partition) -> int {
    spec_deviation(prob.spec_data(), p.spec_clusters()) + prob.spec_lambda() * count_violations(
        prob.spec_constraints(),
        p.spec_assignment(),
    )
}

/// How many random assignments `new_rand` draws before the deterministic
/// fallback stands in.
pub const REDRAW_LIMIT: usize = 100;

/// Two partitions agree on everything fitness can see: the assignment and
/// every cluster's members and centroid.
pub open spec fn congruent(a: Partition, b: Partition) -> bool {
    &&& a.spec_assignment() == b.spec_assignment()
    &&& a.spec_clusters().len() == b.spec_clusters().len()
    &&& forall|c: int|
        0 <= c < a.spec_clusters().len() ==> (#[trigger] a.spec_clusters()[c]).spec_members()
            == (#[trigger] b.spec_clusters()[c]).spec_members() && a.spec_clusters()[c].spec_centroid()
            == b.spec_clusters()[c].spec_centroid()
}

/// Some element is assigned to cluster `t`.
pub open spec fn occupied(asg: Seq<Option<usize>>, t: int) -> bool {
    exists|e: int| 0 <= e < asg.len() && asg[e] == Some(t as usize)
}

/// `post` is `pre` after a repair: elements keep their cluster except for
/// the ones pulled into clusters that held nothing under `pre`, at most one
/// element per such cluster.
pub open spec fn repaired_assignment(pre: Seq<Option<usize>>, post: Seq<Option<usize>>) -> bool {
    &&& post.len() == pre.len()
    &&& forall|e: int|
        0 <= e < pre.len() && (#[trigger] post[e]) != pre[e] ==> post[e] is Some && !occupied(
            pre,
            post[e]->Some_0 as int,
        )
    &&& forall|e1: int, e2: int|
        0 <= e1 < pre.len() && 0 <= e2 < pre.len() && e1 != e2 && (#[trigger] post[e1]) != pre[e1]
            && (#[trigger] post[e2]) != pre[e2] ==> post[e1] != post[e2]
}

/// `np` has the shape of the single move of `element` to another `cluster`
/// in `p`: the assignment updated, the element appended to the destination's
/// members and removed from its source's, the destination centroid the
/// floor mean of its new members, everything else untouched.
pub open spec fn neighbour_shape(
    prob: Problem,
    p: Partition,
    element: int,
    cluster: int,
    np: Partition,
) -> bool {
    let src = p.spec_assignment()[element]->Some_0 as int;
    &&& np.spec_assignment() == p.spec_assignment().update(element, Some(cluster as usize))
    &&& np.spec_clusters().len() == p.spec_clusters().len()
    &&& np.spec_clusters()[cluster].spec_members() == p.spec_clusters()[cluster].spec_members().push(
        element as usize,
    )
    &&& exists|i: int|
        0 <= i < p.spec_clusters()[src].spec_members().len()
            && p.spec_clusters()[src].spec_members()[i] == element as usize
            && np.spec_clusters()[src].spec_members()
            == #[trigger] p.spec_clusters()[src].spec_members().remove(i)
    &&& forall|t: int|
        0 <= t < p.spec_clusters().len() && t != cluster && t != src
            ==> (#[trigger] np.spec_clusters()[t]).spec_members()
            == p.spec_clusters()[t].spec_members()
    &&& forall|t: int|
        0 <= t < p.spec_clusters().len() && t != cluster
            ==> (#[trigger] np.spec_clusters()[t]).spec_centroid()
            == p.spec_clusters()[t].spec_centroid()
    &&& is_centroid(
        prob.spec_data(),
        np.spec_clusters()[cluster].spec_members(),
        np.spec_clusters()[cluster].spec_centroid(),
        prob.spec_dim(),
    )
}

/// Any two partitions of the same move shape agree on everything fitness
/// sees, so the shape determines the neighbour's fitness.
pub proof fn lemma_neighbour_fitness_determined(
    prob: Problem,
    p: Partition,
    element: int,
    cluster: int,
    np1: Partition,
    np2: Partition,
)
    requires
        p.inv(),
        0 <= element < p.spec_n(),
        0 <= cluster < p.spec_k(),
        p.spec_assignment()[element] is Some,
        p.spec_assignment()[element] != Some(cluster as usize),
        neighbour_shape(prob, p, element, cluster, np1),
        neighbour_shape(prob, p, element, cluster, np2),
    ensures
        spec_fitness(prob, np1) == spec_fitness(prob, np2),
{
    let src = p.spec_assignment()[element]->Some_0 as int;
    let ms = p.spec_clusters()[src].spec_members();
    assert(congruent(np1, np2)) by {
        let i1 = choose|i: int|
            0 <= i < ms.len() && ms[i] == element as usize && np1.spec_clusters()[src].spec_members()
                == #[trigger] ms.remove(i);
        let i2 = choose|i: int|
            0 <= i < ms.len() && ms[i] == element as usize && np2.spec_clusters()[src].spec_members()
                == #[trigger] ms.remove(i);
        assert(ms.no_duplicates());
        assert(i1 == i2);
        assert(np1.spec_clusters()[cluster].spec_centroid()
            =~= np2.spec_clusters()[cluster].spec_centroid()) by {
            crate::geometry::lemma_centroid_determined(
                prob.spec_data(),
                np1.spec_clusters()[cluster].spec_members(),
                np1.spec_clusters()[cluster].spec_centroid(),
                np2.spec_clusters()[cluster].spec_centroid(),
                prob.spec_dim(),
            );
        }
        assert forall|t: int|
            0 <= t < np1.spec_clusters().len()
                implies (#[trigger] np1.spec_clusters()[t]).spec_members()
                == (#[trigger] np2.spec_clusters()[t]).spec_members()
                && np1.spec_clusters()[t].spec_centroid()
                == np2.spec_clusters()[t].spec_centroid() by {}
    }
    lemma_fitness_congruent(prob, np1, np2);
}

pub struct Partition {
    cluster_index: Vec<Option<usize>>,
    clusters: Vec<Cluster>,
    saved_fitness: Option<u128>,
}

impl Partition {
    /// The element-to-cluster assignment; `None` marks an unassigned slot.
    pub closed spec fn spec_assignment(self) -> Seq<Option<usize>> {
        self.cluster_index@
    }

    /// The clusters, index-addressed.
    pub closed spec fn spec_clusters(self) -> Seq<Cluster> {
        self.clusters@
    }

    /// The memoized fitness, when one is cached.
    pub closed spec fn spec_saved(self) -> Option<u128> {
        self.saved_fitness
    }

    /// Number of elements of the underlying problem.
    pub open spec fn spec_n(self) -> int {
        self.spec_assignment().len() as int
    }

    /// Number of clusters.
    pub open spec fn spec_k(self) -> int {
        self.spec_clusters().len() as int
    }

    /// Dimension of the centroids.
    pub open spec fn spec_dim(self) -> int {
        self.spec_clusters()[0].spec_centroid().len() as int
    }

    /// Assignment and membership agree in both directions: an element is
    /// assigned to `c` exactly when cluster `c` holds it, and clusters hold
    /// only in-range elements, without duplicates.
    pub open spec fn inv(self) -> bool {
        &&& self.spec_k() >= 1
        &&& forall|c: int|
            0 <= c < self.spec_k() ==> (#[trigger] self.spec_clusters()[c]).wf(
                self.spec_n(),
                self.spec_dim(),
            )
        &&& forall|e: int|
            0 <= e < self.spec_n() ==> ((#[trigger] self.spec_assignment()[e]) matches Some(c)
                ==> c < self.spec_k() && self.spec_clusters()[c as int].spec_members().contains(
                e as usize,
            ))
        &&& forall|c: int, t: int|
            0 <= c < self.spec_k() && 0 <= t < self.spec_clusters()[c].spec_members().len()
                ==> self.spec_assignment()[#[trigger] self.spec_clusters()[c].spec_members()[t] as int]
                == Some(c as usize)
    }

    /// Every element is assigned.
    pub open spec fn complete(self) -> bool {
        forall|e: int|
            0 <= e < self.spec_n() ==> (#[trigger] self.spec_assignment()[e]) is Some
    }

    /// No cluster is empty.
    pub open spec fn spec_valid(self) -> bool {
        forall|c: int|
            0 <= c < self.spec_k() ==> (#[trigger] self.spec_clusters()[c]).spec_members().len()
                >= 1
    }

    /// The partition ranges over the same elements, clusters and dimension
    /// as the problem.
    pub open spec fn compatible(self, prob: Problem) -> bool {
        &&& self.spec_n() == prob.spec_n()
        &&& self.spec_k() == prob.spec_k()
        &&& self.spec_dim() == prob.spec_dim()
    }

    /// The cached fitness, when present, is the true fitness.
    pub open spec fn cache_ok(self, prob: Problem) -> bool {
        self.spec_saved() matches Some(f) ==> f as int == spec_fitness(prob, self)
    }

    /// Creates a new empty partition over `n` elements with `k` clusters of
    /// randomized centroids of dimension `dim`.
    pub fn new(k: usize, dim: usize, n: usize, rng: &mut RandomSource) -> (r: Partition)
        requires
            k >= 1,
        ensures
            r.inv(),
            r.spec_n() == n as int,
            r.spec_k() == k as int,
            r.spec_dim() == dim as int,
            r.spec_saved() is None,
            forall|e: int| 0 <= e < n ==> (#[trigger] r.spec_assignment()[e]) is None,
            forall|c: int|
                0 <= c < k ==> (#[trigger] r.spec_clusters()[c]).spec_members().len() == 0,
            forall|c: int, j: int|
                0 <= c < k && 0 <= j < dim ==> #[trigger] r.spec_clusters()[c].spec_centroid()[j]
                    < crate::UNIT,
    {
        let mut clusters: Vec<Cluster> = Vec::new();
        let mut c: usize = 0;
        while c < k
            invariant
                c <= k,
                clusters@.len() == c,
                forall|t: int|
                    0 <= t < c ==> (#[trigger] clusters@[t]).spec_members().len() == 0,
                forall|t: int|
                    0 <= t < c ==> (#[trigger] clusters@[t]).spec_centroid().len() == dim,
                forall|t: int, j: int|
                    0 <= t < c && 0 <= j < dim ==> #[trigger] clusters@[t].spec_centroid()[j]
                        < crate::UNIT,
                forall|t: int, nn: int|
                    0 <= t < c ==> #[trigger] clusters@[t].wf(nn, dim as int),
            decreases k - c,
        {
            clusters.push(Cluster::new_rand(dim, rng));
            c = c + 1;
        }
        let mut cluster_index: Vec<Option<usize>> = Vec::new();
        let mut e: usize = 0;
        while e < n
            invariant
                e <= n,
                cluster_index@.len() == e,
                forall|t: int| 0 <= t < e ==> (#[trigger] cluster_index@[t]) is None,
            decreases n - e,
        {
            cluster_index.push(None);
            e = e + 1;
        }
        Partition { cluster_index, clusters, saved_fitness: None }
    }

    /// Insert an element into a cluster, removing it from its current
    /// cluster first; the fitness cache is invalidated. Centroids are not
    /// touched: recomputing them is a separate, caller-driven step.
    pub fn insert(&mut self, element: usize, cluster: usize)
        requires
            old(self).inv(),
            element < old(self).spec_n(),
            cluster < old(self).spec_k(),
        ensures
            final(self).inv(),
            final(self).spec_n() == old(self).spec_n(),
            final(self).spec_k() == old(self).spec_k(),
            final(self).spec_dim() == old(self).spec_dim(),
            final(self).spec_saved() is None,
            final(self).spec_assignment() == old(self).spec_assignment().update(
                element as int,
                Some(cluster),
            ),
            forall|c: int|
                0 <= c < old(self).spec_k() ==> (#[trigger] final(self).spec_clusters()[c]).spec_centroid()
                    == old(self).spec_clusters()[c].spec_centroid(),
            old(self).spec_assignment()[element as int] == Some(cluster) ==> forall|c: int|
                0 <= c < old(self).spec_k() ==> (#[trigger] final(self).spec_clusters()[c]).spec_members()
                    == old(self).spec_clusters()[c].spec_members(),
            old(self).spec_assignment()[element as int] != Some(cluster) ==> {
                &&& final(self).spec_clusters()[cluster as int].spec_members() == old(
                    self,
                ).spec_clusters()[cluster as int].spec_members().push(element)
                &&& forall|c: int|
                    0 <= c < old(self).spec_k() && c != cluster && Some(c as usize) != old(
                        self,
                    ).spec_assignment()[element as int]
                        ==> (#[trigger] final(self).spec_clusters()[c]).spec_members() == old(
                        self,
                    ).spec_clusters()[c].spec_members()
                &&& (old(self).spec_assignment()[element as int] is Some ==> {
                    let c0 = old(self).spec_assignment()[element as int]->Some_0;
                    final(self).spec_clusters()[c0 as int].spec_members().len() == old(
                        self,
                    ).spec_clusters()[c0 as int].spec_members().len() - 1 && (forall|x: usize|
                        #[trigger] final(self).spec_clusters()[c0 as int].spec_members().contains(
                            x,
                        ) == (old(self).spec_clusters()[c0 as int].spec_members().contains(x) && x
                            != element)) && exists|i: int|
                        0 <= i < old(self).spec_clusters()[c0 as int].spec_members().len()
                            && old(self).spec_clusters()[c0 as int].spec_members()[i] == element
                            && final(self).spec_clusters()[c0 as int].spec_members()
                            == #[trigger] old(self).spec_clusters()[c0 as int].spec_members().remove(i)
                })
            },
    {
        self.saved_fitness = None;
        let prev = self.cluster_index[element];
        match prev {
            Some(c0) => {
                if c0 == cluster {
                    proof {
                        assert(old(self).spec_assignment().update(
                            element as int,
                            Some(cluster),
                        ) =~= old(self).spec_assignment());
                    }
                    return ;
                }
                self.cluster_remove(c0, element);
            },
            None => {},
        }
        proof {
            if self.spec_clusters()[cluster as int].spec_members().contains(element) {
                let t = choose|t: int|
                    0 <= t < self.spec_clusters()[cluster as int].spec_members().len()
                        && self.spec_clusters()[cluster as int].spec_members()[t] == element;
                assert(old(self).spec_clusters()[cluster as int].spec_members().contains(element));
                assert(old(self).spec_assignment()[element as int] == Some(cluster));
                assert(false);
            }
        }
        self.cluster_insert(cluster, element);
        self.cluster_index.set(element, Some(cluster));
        proof {
            assert(old(self).cluster_index.len() == old(self).spec_assignment().len());
            assert(old(self).clusters.len() == old(self).spec_clusters().len());
            lemma_insert_preserves_inv(*old(self), *self, element, cluster);
        }
    }

    /// Removes `e` from cluster `c`, touching nothing else.
    fn cluster_remove(&mut self, c: usize, e: usize) -> (r: bool)
        requires
            c < old(self).spec_k(),
            old(self).spec_clusters()[c as int].spec_members().no_duplicates(),
        ensures
            r == old(self).spec_clusters()[c as int].spec_members().contains(e),
            final(self).cluster_index@ == old(self).cluster_index@,
            final(self).saved_fitness == old(self).saved_fitness,
            final(self).spec_clusters().len() == old(self).spec_clusters().len(),
            forall|t: int|
                0 <= t < old(self).spec_k() && t != c ==> #[trigger] final(self).spec_clusters()[t]
                    == old(self).spec_clusters()[t],
            final(self).spec_clusters()[c as int].spec_centroid() == old(
                self,
            ).spec_clusters()[c as int].spec_centroid(),
            final(self).spec_clusters()[c as int].spec_members().len() == old(
                self,
            ).spec_clusters()[c as int].spec_members().len() - (if r {
                1int
            } else {
                0
            }),
            forall|x: usize|
                #[trigger] final(self).spec_clusters()[c as int].spec_members().contains(x) == (old(
                    self,
                ).spec_clusters()[c as int].spec_members().contains(x) && x != e),
            r ==> exists|i: int|
                0 <= i < old(self).spec_clusters()[c as int].spec_members().len()
                    && old(self).spec_clusters()[c as int].spec_members()[i] == e
                    && final(self).spec_clusters()[c as int].spec_members()
                    == #[trigger] old(self).spec_clusters()[c as int].spec_members().remove(i),
            forall|n: int, dim: int|
                old(self).spec_clusters()[c as int].wf(n, dim)
                    ==> #[trigger] final(self).spec_clusters()[c as int].wf(n, dim),
    {
        let mut taken = Cluster::new(0);
        self.clusters.set_and_swap(c, &mut taken);
        let r = taken.remove(e);
        self.clusters.set_and_swap(c, &mut taken);
        proof {
            assert(final(self).clusters@ =~= old(self).clusters@.update(
                c as int,
                final(self).clusters@[c as int],
            ));
        }
        r
    }

    /// Adds `e` to cluster `c` (which must not hold it), touching nothing
    /// else.
    fn cluster_insert(&mut self, c: usize, e: usize)
        requires
            c < old(self).spec_k(),
            !old(self).spec_clusters()[c as int].spec_members().contains(e),
        ensures
            final(self).cluster_index@ == old(self).cluster_index@,
            final(self).saved_fitness == old(self).saved_fitness,
            final(self).spec_clusters().len() == old(self).spec_clusters().len(),
            forall|t: int|
                0 <= t < old(self).spec_k() && t != c ==> #[trigger] final(self).spec_clusters()[t]
                    == old(self).spec_clusters()[t],
            final(self).spec_clusters()[c as int].spec_centroid() == old(
                self,
            ).spec_clusters()[c as int].spec_centroid(),
            final(self).spec_clusters()[c as int].spec_members() == old(
                self,
            ).spec_clusters()[c as int].spec_members().push(e),
            forall|n: int, dim: int|
                old(self).spec_clusters()[c as int].wf(n, dim) && e < n
                    ==> #[trigger] final(self).spec_clusters()[c as int].wf(n, dim),
    {
        let mut taken = Cluster::new(0);
        self.clusters.set_and_swap(c, &mut taken);
        taken.insert(e);
        self.clusters.set_and_swap(c, &mut taken);
        proof {
            assert(final(self).clusters@ =~= old(self).clusters@.update(
                c as int,
                final(self).clusters@[c as int],
            ));
        }
    }

    /// Replaces the centroid of cluster `c`, invalidating the cache.
    pub fn set_centroid_of(&mut self, c: usize, centroid: Vec<u64>)
        requires
            old(self).inv(),
            c < old(self).spec_k(),
            centroid@.len() == old(self).spec_dim(),
            forall|j: int|
                0 <= j < centroid@.len() ==> #[trigger] centroid@[j] <= crate::COORD_LIMIT,
        ensures
            final(self).inv(),
            final(self).spec_n() == old(self).spec_n(),
            final(self).spec_k() == old(self).spec_k(),
            final(self).spec_dim() == old(self).spec_dim(),
            final(self).spec_saved() is None,
            final(self).spec_assignment() == old(self).spec_assignment(),
            final(self).spec_clusters()[c as int].spec_centroid() == centroid@,
            forall|t: int|
                0 <= t < old(self).spec_k() ==> (#[trigger] final(self).spec_clusters()[t]).spec_members()
                    == old(self).spec_clusters()[t].spec_members(),
            forall|t: int|
                0 <= t < old(self).spec_k() && t != c
                    ==> (#[trigger] final(self).spec_clusters()[t]).spec_centroid() == old(
                    self,
                ).spec_clusters()[t].spec_centroid(),
    {
        self.saved_fitness = None;
        let mut taken = Cluster::new(0);
        self.clusters.set_and_swap(c, &mut taken);
        taken.set_centroid(centroid);
        self.clusters.set_and_swap(c, &mut taken);
        proof {
            assert(final(self).clusters@ =~= old(self).clusters@.update(
                c as int,
                final(self).clusters@[c as int],
            ));
            assert forall|t: int|
                0 <= t < old(self).spec_k() implies (#[trigger] final(self).spec_clusters()[t]).wf(
                final(self).spec_n(),
                final(self).spec_dim(),
            ) by {
                assert(old(self).spec_clusters()[t].wf(old(self).spec_n(), old(self).spec_dim()));
            }
        }
    }

    /// Replaces the centroid of cluster `c` by a random point of the unit
    /// box, invalidating the cache.
    pub fn randomize_centroid_of(&mut self, c: usize, rng: &mut RandomSource)
        requires
            old(self).inv(),
            c < old(self).spec_k(),
        ensures
            final(self).inv(),
            final(self).spec_n() == old(self).spec_n(),
            final(self).spec_k() == old(self).spec_k(),
            final(self).spec_dim() == old(self).spec_dim(),
            final(self).spec_saved() is None,
            final(self).spec_assignment() == old(self).spec_assignment(),
            final(self).spec_clusters()[c as int].spec_centroid().len() == old(self).spec_dim(),
            forall|j: int|
                0 <= j < final(self).spec_clusters()[c as int].spec_centroid().len()
                    ==> #[trigger] final(self).spec_clusters()[c as int].spec_centroid()[j]
                    < crate::UNIT,
            forall|t: int|
                0 <= t < old(self).spec_k() ==> (#[trigger] final(self).spec_clusters()[t]).spec_members()
                    == old(self).spec_clusters()[t].spec_members(),
            forall|t: int|
                0 <= t < old(self).spec_k() && t != c
                    ==> (#[trigger] final(self).spec_clusters()[t]).spec_centroid() == old(
                    self,
                ).spec_clusters()[t].spec_centroid(),
    {
        self.saved_fitness = None;
        let mut taken = Cluster::new(0);
        self.clusters.set_and_swap(c, &mut taken);
        proof {
            assert(old(self).spec_clusters()[c as int].wf(old(self).spec_n(), old(self).spec_dim()));
        }
        taken.randomize_centroid(rng);
        self.clusters.set_and_swap(c, &mut taken);
        proof {
            assert(final(self).clusters@ =~= old(self).clusters@.update(
                c as int,
                final(self).clusters@[c as int],
            ));
            assert(crate::UNIT <= crate::COORD_LIMIT);
            assert forall|t: int|
                0 <= t < old(self).spec_k() implies (#[trigger] final(self).spec_clusters()[t]).wf(
                final(self).spec_n(),
                final(self).spec_dim(),
            ) by {
                assert(old(self).spec_clusters()[t].wf(old(self).spec_n(), old(self).spec_dim()));
                if t == c {
                    assert forall|j: int|
                        0 <= j < final(self).spec_clusters()[t].spec_centroid().len()
                            implies #[trigger] final(self).spec_clusters()[t].spec_centroid()[j]
                            <= crate::COORD_LIMIT by {
                        assert(final(self).spec_clusters()[t].spec_centroid()[j] < crate::UNIT);
                    }
                }
            }
        }
    }

    /// Returns the total number of element slots (the problem size).
    pub fn problem_size(&self) -> (r: usize)
        ensures
            r == self.spec_n(),
    {
        self.cluster_index.len()
    }

    /// Returns the number of clusters.
    pub fn k(&self) -> (r: usize)
        ensures
            r == self.spec_k(),
    {
        self.clusters.len()
    }

    /// Returns the assignment vector.
    pub fn cluster_index(&self) -> (r: &Vec<Option<usize>>)
        ensures
            r@ == self.spec_assignment(),
    {
        &self.cluster_index
    }

    /// Returns the clusters vector.
    pub fn clusters(&self) -> (r: &Vec<Cluster>)
        ensures
            r@ == self.spec_clusters(),
    {
        &self.clusters
    }

    /// Returns a reference to cluster `i`.
    pub fn get_cluster(&self, i: usize) -> (r: &Cluster)
        requires
            i < self.spec_k(),
        ensures
            *r == self.spec_clusters()[i as int],
    {
        &self.clusters[i]
    }

    /// Returns the cluster containing `element`, or `None` if unassigned.
    pub fn get_cluster_index_for(&self, element: usize) -> (r: Option<usize>)
        requires
            element < self.spec_n(),
        ensures
            r == self.spec_assignment()[element as int],
    {
        self.cluster_index[element]
    }

    /// Checks whether every element is assigned.
    pub fn is_complete(&self) -> (r: bool)
        ensures
            r == self.complete(),
    {
        let n = self.cluster_index.len();
        let mut e: usize = 0;
        while e < n
            invariant
                n == self.spec_n(),
                e <= n,
                forall|t: int| 0 <= t < e ==> (#[trigger] self.spec_assignment()[t]) is Some,
            decreases n - e,
        {
            if self.cluster_index[e].is_none() {
                return false;
            }
            e = e + 1;
        }
        true
    }

    /// Checks whether the partition is valid: no cluster is empty.
    pub fn is_valid(&self) -> (r: bool)
        ensures
            r == self.spec_valid(),
    {
        let k = self.clusters.len();
        let mut c: usize = 0;
        while c < k
            invariant
                k == self.spec_clusters().len(),
                c <= k,
                forall|t: int|
                    0 <= t < c ==> (#[trigger] self.spec_clusters()[t]).spec_members().len() >= 1,
            decreases k - c,
        {
            if self.clusters[c].is_empty() {
                return false;
            }
            c = c + 1;
        }
        true
    }

    /// Returns a deep copy of the partition, with an empty fitness cache.
    pub fn duplicate(&self) -> (r: Partition)
        ensures
            congruent(r, *self),
            r.spec_assignment() == self.spec_assignment(),
            r.spec_saved() is None,
            r.spec_clusters().len() == self.spec_clusters().len(),
            forall|c: int|
                0 <= c < self.spec_k() ==> (#[trigger] r.spec_clusters()[c]).spec_members()
                    == self.spec_clusters()[c].spec_members(),
            forall|c: int|
                0 <= c < self.spec_k() ==> (#[trigger] r.spec_clusters()[c]).spec_centroid()
                    == self.spec_clusters()[c].spec_centroid(),
            self.inv() ==> r.inv(),
            r.spec_n() == self.spec_n(),
            r.spec_k() == self.spec_k(),
            self.spec_k() >= 1 ==> r.spec_dim() == self.spec_dim(),
    {
        let mut cluster_index: Vec<Option<usize>> = Vec::new();
        let n = self.cluster_index.len();
        let mut e: usize = 0;
        while e < n
            invariant
                n == self.cluster_index@.len(),
                e <= n,
                cluster_index@ =~= self.cluster_index@.take(e as int),
            decreases n - e,
        {
            cluster_index.push(self.cluster_index[e]);
            e = e + 1;
        }
        let mut clusters: Vec<Cluster> = Vec::new();
        let k = self.clusters.len();
        let mut c: usize = 0;
        while c < k
            invariant
                k == self.clusters@.len(),
                c <= k,
                clusters@.len() == c,
                forall|t: int|
                    0 <= t < c ==> (#[trigger] clusters@[t]).spec_members()
                        == self.clusters@[t].spec_members(),
                forall|t: int|
                    0 <= t < c ==> (#[trigger] clusters@[t]).spec_centroid()
                        == self.clusters@[t].spec_centroid(),
            decreases k - c,
        {
            clusters.push(self.clusters[c].duplicate());
            c = c + 1;
        }
        proof {
            assert(cluster_index@ =~= self.cluster_index@);
        }
        let r = Partition { cluster_index, clusters, saved_fitness: None };
        proof {
            if self.inv() {
                assert forall|c2: int|
                    0 <= c2 < r.spec_k() implies (#[trigger] r.spec_clusters()[c2]).wf(
                    r.spec_n(),
                    r.spec_dim(),
                ) by {
                    assert(self.spec_clusters()[c2].wf(self.spec_n(), self.spec_dim()));
                }
                assert forall|c2: int, t: int|
                    0 <= c2 < r.spec_k() && 0 <= t < r.spec_clusters()[c2].spec_members().len()
                        implies r.spec_assignment()[#[trigger] r.spec_clusters()[c2].spec_members()[t] as int]
                        == Some(c2 as usize) by {
                    assert(self.spec_assignment()[self.spec_clusters()[c2].spec_members()[t] as int]
                        == Some(c2 as usize));
                }
            }
        }
        r
    }

    /// Whether two partitions assign every element alike. Partitions are
    /// compared by assignment alone: cluster centroids are not identity.
    pub fn same_assignment(&self, other: &Partition) -> (r: bool)
        ensures
            r == (self.spec_assignment() == other.spec_assignment()),
    {
        let n = self.cluster_index.len();
        if n != other.cluster_index.len() {
            proof {
                assert(self.spec_assignment().len() != other.spec_assignment().len());
            }
            return false;
        }
        let mut e: usize = 0;
        while e < n
            invariant
                n == self.cluster_index@.len(),
                n == other.cluster_index@.len(),
                e <= n,
                forall|t: int|
                    0 <= t < e ==> #[trigger] self.cluster_index@[t] == other.cluster_index@[t],
            decreases n - e,
        {
            let same = match (self.cluster_index[e], other.cluster_index[e]) {
                (Some(a), Some(b)) => a == b,
                (None, None) => true,
                _ => false,
            };
            if !same {
                return false;
            }
            e = e + 1;
        }
        proof {
            assert(self.spec_assignment() =~= other.spec_assignment());
        }
        true
    }
}

impl Partition {
    /// Insert an element and recompute the destination cluster's centroid.
    pub fn insert_and_update(&mut self, element: usize, cluster: usize, problem: &Problem)
        requires
            old(self).inv(),
            old(self).compatible(*problem),
            problem.wf(),
            element < old(self).spec_n(),
            cluster < old(self).spec_k(),
        ensures
            final(self).inv(),
            final(self).compatible(*problem),
            final(self).spec_n() == old(self).spec_n(),
            final(self).spec_k() == old(self).spec_k(),
            final(self).spec_dim() == old(self).spec_dim(),
            final(self).spec_saved() is None,
            final(self).spec_assignment() == old(self).spec_assignment().update(
                element as int,
                Some(cluster),
            ),
            is_centroid(
                problem.spec_data(),
                final(self).spec_clusters()[cluster as int].spec_members(),
                final(self).spec_clusters()[cluster as int].spec_centroid(),
                problem.spec_dim(),
            ),
            forall|c: int|
                0 <= c < old(self).spec_k() && c != cluster
                    ==> (#[trigger] final(self).spec_clusters()[c]).spec_centroid() == old(
                    self,
                ).spec_clusters()[c].spec_centroid(),
            old(self).spec_assignment()[element as int] == Some(cluster) ==> forall|c: int|
                0 <= c < old(self).spec_k() ==> (#[trigger] final(self).spec_clusters()[c]).spec_members()
                    == old(self).spec_clusters()[c].spec_members(),
            old(self).spec_assignment()[element as int] != Some(cluster) ==> {
                &&& final(self).spec_clusters()[cluster as int].spec_members() == old(
                    self,
                ).spec_clusters()[cluster as int].spec_members().push(element)
                &&& forall|c: int|
                    0 <= c < old(self).spec_k() && c != cluster && Some(c as usize) != old(
                        self,
                    ).spec_assignment()[element as int]
                        ==> (#[trigger] final(self).spec_clusters()[c]).spec_members() == old(
                        self,
                    ).spec_clusters()[c].spec_members()
                &&& (old(self).spec_assignment()[element as int] is Some ==> {
                    let c0 = old(self).spec_assignment()[element as int]->Some_0;
                    final(self).spec_clusters()[c0 as int].spec_members().len() == old(
                        self,
                    ).spec_clusters()[c0 as int].spec_members().len() - 1 && (forall|x: usize|
                        #[trigger] final(self).spec_clusters()[c0 as int].spec_members().contains(
                            x,
                        ) == (old(self).spec_clusters()[c0 as int].spec_members().contains(x) && x
                            != element)) && exists|i: int|
                        0 <= i < old(self).spec_clusters()[c0 as int].spec_members().len()
                            && old(self).spec_clusters()[c0 as int].spec_members()[i] == element
                            && final(self).spec_clusters()[c0 as int].spec_members()
                            == #[trigger] old(self).spec_clusters()[c0 as int].spec_members().remove(i)
                })
            },
    {
        self.insert(element, cluster);
        proof {
            assert(self.spec_assignment()[element as int] == Some(cluster));
            assert(self.spec_clusters()[cluster as int].spec_members().contains(element));
            assert(self.spec_clusters()[cluster as int].spec_members().len() >= 1) by {
                let ms = self.spec_clusters()[cluster as int].spec_members();
                let t = choose|t: int| 0 <= t < ms.len() && ms[t] == element;
            }
            assert(self.spec_clusters()[cluster as int].wf(self.spec_n(), self.spec_dim()));
        }
        let centroid = problem.calc_centroid(&self.clusters[cluster]);
        self.set_centroid_of(cluster, centroid);
    }

    /// The fundamental move operator: a cloned partition with `element`
    /// moved to `cluster` and that cluster's centroid recomputed, or `None`
    /// if the move would empty the element's source cluster.
    pub fn gen_neighbour(&self, element: usize, cluster: usize, problem: &Problem) -> (r: Option<
        Partition,
    >)
        requires
            self.inv(),
            self.compatible(*problem),
            problem.wf(),
            element < self.spec_n(),
            cluster < self.spec_k(),
            self.spec_assignment()[element as int] is Some,
        ensures
            (r is Some) == (self.spec_assignment()[element as int] == Some(cluster)
                || self.spec_clusters()[self.spec_assignment()[element as int]->Some_0 as int].spec_members().len()
                > 1),
            r matches Some(np) ==> {
                &&& np.inv()
                &&& np.compatible(*problem)
                &&& np.spec_n() == self.spec_n()
                &&& np.spec_k() == self.spec_k()
                &&& np.spec_saved() is None
                &&& np.spec_assignment() == self.spec_assignment().update(
                    element as int,
                    Some(cluster),
                )
                &&& is_centroid(
                    problem.spec_data(),
                    np.spec_clusters()[cluster as int].spec_members(),
                    np.spec_clusters()[cluster as int].spec_centroid(),
                    problem.spec_dim(),
                )
                &&& (self.complete() ==> np.complete())
                &&& (self.spec_valid() ==> np.spec_valid())
                &&& (self.spec_assignment()[element as int] != Some(cluster) ==> neighbour_shape(
                    *problem,
                    *self,
                    element as int,
                    cluster as int,
                    np,
                ))
            },
    {
        let c0 = match self.cluster_index[element] {
            Some(c0) => c0,
            None => {
                proof {
                    assert(false);
                }
                0
            },
        };
        if c0 != cluster && self.clusters[c0].len() <= 1 {
            return None;
        }
        let mut neighbour = self.duplicate();
        neighbour.insert_and_update(element, cluster, problem);
        proof {
            let np = neighbour;
            assert forall|e: int|
                self.complete() && 0 <= e < np.spec_n() implies (#[trigger] np.spec_assignment()[e])
                is Some by {
                if e != element {
                    assert(np.spec_assignment()[e] == self.spec_assignment()[e]);
                }
            }
            if self.spec_valid() {
                assert forall|c: int|
                    0 <= c < np.spec_k() implies (#[trigger] np.spec_clusters()[c]).spec_members().len()
                    >= 1 by {
                    if self.spec_assignment()[element as int] == Some(cluster) {
                        assert(np.spec_clusters()[c].spec_members()
                            == self.spec_clusters()[c].spec_members());
                    } else {
                        if c == cluster {
                            assert(np.spec_clusters()[c].spec_members().len()
                                == self.spec_clusters()[c].spec_members().len() + 1);
                        } else if Some(c as usize) == self.spec_assignment()[element as int] {
                            assert(c == c0);
                            assert(np.spec_clusters()[c].spec_members().len()
                                == self.spec_clusters()[c].spec_members().len() - 1);
                        } else {
                            assert(np.spec_clusters()[c].spec_members()
                                == self.spec_clusters()[c].spec_members());
                        }
                    }
                }
            }
        }
        Some(neighbour)
    }

    /// Memoized fitness: returns the cached value when present, otherwise
    /// recomputes and caches it. Every read equals the freshly computed
    /// objective of the partition.
    pub fn fitness(&mut self, problem: &Problem) -> (r: u128)
        requires
            old(self).inv(),
            old(self).compatible(*problem),
            problem.wf(),
            old(self).complete(),
            old(self).spec_valid(),
            old(self).cache_ok(*problem),
        ensures
            r as int == spec_fitness(*problem, *old(self)),
            final(self).spec_assignment() == old(self).spec_assignment(),
            final(self).spec_clusters() == old(self).spec_clusters(),
            final(self).spec_saved() == Some(r),
            final(self).inv(),
            final(self).compatible(*problem),
            final(self).complete(),
            final(self).spec_valid(),
            final(self).cache_ok(*problem),
    {
        match self.saved_fitness {
            Some(f) => f,
            None => {
                let f = problem.fitness(self);
                self.saved_fitness = Some(f);
                f
            },
        }
    }

    /// Creates a complete, valid partition by random assignment: the draw is
    /// retried a bounded number of times, after which a deterministic
    /// round-robin assignment stands in, so a valid partition always comes
    /// back.
    pub fn new_rand(problem: &Problem, rng: &mut RandomSource) -> (r: Partition)
        requires
            problem.wf(),
        ensures
            r.inv(),
            r.compatible(*problem),
            r.complete(),
            r.spec_valid(),
            r.spec_saved() is None,
    {
        let n = problem.len();
        let k = problem.k();
        let dim = problem.data(0).len();
        let mut tries: usize = 0;
        while tries < REDRAW_LIMIT
            invariant
                problem.wf(),
                n == problem.spec_n(),
                k == problem.spec_k(),
                dim == problem.spec_dim(),
            decreases REDRAW_LIMIT - tries,
        {
            let mut p = Partition::new(k, dim, n, rng);
            let mut e: usize = 0;
            while e < n
                invariant
                    p.inv(),
                    p.spec_n() == n as int,
                    p.spec_k() == k as int,
                    p.spec_dim() == dim as int,
                    p.spec_saved() is None,
                    k >= 1,
                    e <= n,
                    forall|t: int| 0 <= t < e ==> (#[trigger] p.spec_assignment()[t]) is Some,
                decreases n - e,
            {
                let c = rng.index_below(k);
                p.insert(e, c);
                e = e + 1;
            }
            if p.is_valid() {
                return p;
            }
            tries = tries + 1;
        }
        let mut p = Partition::new(k, dim, n, rng);
        let mut e: usize = 0;
        while e < n
            invariant
                p.inv(),
                p.spec_n() == n as int,
                p.spec_k() == k as int,
                p.spec_dim() == dim as int,
                p.spec_saved() is None,
                k >= 1,
                k <= n,
                e <= n,
                forall|t: int|
                    0 <= t < e ==> (#[trigger] p.spec_assignment()[t]) == Some((t % (k as int)) as usize),
            decreases n - e,
        {
            let c = e % k;
            p.insert(e, c);
            e = e + 1;
        }
        proof {
            assert forall|c: int|
                0 <= c < p.spec_k() implies (#[trigger] p.spec_clusters()[c]).spec_members().len()
                >= 1 by {
                assert(c % (k as int) == c) by (nonlinear_arith)
                    requires
                        0 <= c < k,
                ;
                assert(p.spec_assignment()[c] == Some(c as usize));
                assert(p.spec_clusters()[c].spec_members().contains(c as usize));
                let t = choose|t: int|
                    0 <= t < p.spec_clusters()[c].spec_members().len()
                        && p.spec_clusters()[c].spec_members()[t] == c as usize;
            }
        }
        p
    }

    /// Creates a population of independent random valid partitions.
    pub fn random_population(problem: &Problem, count: u32, rng: &mut RandomSource) -> (r: Vec<
        Partition,
    >)
        requires
            problem.wf(),
        ensures
            r@.len() == count,
            forall|i: int|
                0 <= i < count ==> (#[trigger] r@[i]).inv() && r@[i].compatible(*problem)
                    && r@[i].complete() && r@[i].spec_valid() && r@[i].cache_ok(*problem),
    {
        let mut population: Vec<Partition> = Vec::new();
        let mut t: u32 = 0;
        while t < count
            invariant
                problem.wf(),
                t <= count,
                population@.len() == t,
                forall|i: int|
                    0 <= i < t ==> (#[trigger] population@[i]).inv() && population@[i].compatible(
                        *problem,
                    ) && population@[i].complete() && population@[i].spec_valid()
                        && population@[i].cache_ok(*problem),
            decreases count - t,
        {
            population.push(Partition::new_rand(problem, rng));
            t = t + 1;
        }
        population
    }

    /// Whether the home cluster of element `t` has at most one member.
    pub open spec fn home_small(self, t: int) -> bool {
        self.spec_clusters()[self.spec_assignment()[t]->Some_0 as int].spec_members().len() <= 1
    }

    /// Finds an element whose cluster keeps at least one member after the
    /// element leaves, probing cyclically from `start`.
    fn find_donor(&self, start: usize) -> (r: usize)
        requires
            self.inv(),
            self.complete(),
            self.spec_k() <= self.spec_n(),
            start < self.spec_n(),
            exists|c0: int|
                0 <= c0 < self.spec_k() && (#[trigger] self.spec_clusters()[c0]).spec_members().len()
                    == 0,
        ensures
            r < self.spec_n(),
            self.spec_assignment()[r as int] is Some,
            !self.home_small(r as int),
    {
        let n = self.cluster_index.len();
        let mut e: usize = start;
        while e < n
            invariant
                self.inv(),
                self.complete(),
                n == self.spec_n(),
                start <= e <= n,
                forall|t: int| start <= t < e ==> #[trigger] self.home_small(t),
            decreases n - e,
        {
            match self.cluster_index[e] {
                Some(c) => {
                    if self.clusters[c].len() >= 2 {
                        return e;
                    }
                },
                None => {
                    proof {
                        assert(false);
                    }
                },
            }
            e = e + 1;
        }
        let mut e2: usize = 0;
        while e2 < start
            invariant
                self.inv(),
                self.complete(),
                n == self.spec_n(),
                e2 <= start < n,
                forall|t: int| start <= t < n ==> #[trigger] self.home_small(t),
                forall|t: int| 0 <= t < e2 ==> #[trigger] self.home_small(t),
            decreases start - e2,
        {
            match self.cluster_index[e2] {
                Some(c) => {
                    if self.clusters[c].len() >= 2 {
                        return e2;
                    }
                },
                None => {
                    proof {
                        assert(false);
                    }
                },
            }
            e2 = e2 + 1;
        }
        proof {
            assert(self.cluster_index.len() == self.spec_assignment().len());
            assert(self.clusters.len() == self.spec_clusters().len());
            lemma_donor_exists(*self);
            let w = choose|t: int| 0 <= t < self.spec_n() && !self.home_small(t);
            assert(self.home_small(w));
            assert(false);
        }
        vstd::pervasive::unreached()
    }

    /// Repairs an invalid partition: every empty cluster receives one
    /// element pulled from a cluster that keeps at least one member, the
    /// element chosen by a random cyclic probe.
    pub fn repair(&mut self, rng: &mut RandomSource)
        requires
            old(self).inv(),
            old(self).complete(),
            old(self).spec_k() <= old(self).spec_n(),
        ensures
            final(self).inv(),
            final(self).complete(),
            final(self).spec_valid(),
            final(self).spec_n() == old(self).spec_n(),
            final(self).spec_k() == old(self).spec_k(),
            final(self).spec_dim() == old(self).spec_dim(),
            final(self).spec_saved() is None,
            forall|t: int|
                0 <= t < old(self).spec_k() ==> (#[trigger] final(self).spec_clusters()[t]).spec_centroid()
                    == old(self).spec_clusters()[t].spec_centroid(),
            repaired_assignment(old(self).spec_assignment(), final(self).spec_assignment()),
    {
        self.saved_fitness = None;
        let k = self.clusters.len();
        let n = self.cluster_index.len();
        let mut c: usize = 0;
        while c < k
            invariant
                self.inv(),
                self.complete(),
                old(self).inv(),
                old(self).complete(),
                n == self.spec_n(),
                n == old(self).spec_n(),
                k == self.spec_k(),
                k == old(self).spec_k(),
                k <= n,
                self.spec_dim() == old(self).spec_dim(),
                self.spec_saved() is None,
                c <= k,
                forall|t: int|
                    0 <= t < c ==> (#[trigger] self.spec_clusters()[t]).spec_members().len() >= 1,
                forall|t: int|
                    0 <= t < k ==> (#[trigger] self.spec_clusters()[t]).spec_centroid() == old(
                        self,
                    ).spec_clusters()[t].spec_centroid(),
                forall|t: int|
                    0 <= t < k && old(self).spec_clusters()[t].spec_members().len() >= 1
                        ==> (#[trigger] self.spec_clusters()[t]).spec_members().len() >= 1,
                forall|x: int|
                    0 <= x < n && (#[trigger] self.spec_assignment()[x]) != old(
                        self,
                    ).spec_assignment()[x] ==> self.spec_assignment()[x] is Some
                    && self.spec_assignment()[x]->Some_0 < c && old(
                        self,
                    ).spec_clusters()[self.spec_assignment()[x]->Some_0 as int].spec_members().len()
                    == 0 && self.spec_clusters()[self.spec_assignment()[x]->Some_0 as int].spec_members().len()
                    == 1,
            decreases k - c,
        {
            if self.clusters[c].is_empty() {
                let start = rng.index_below(n);
                let e = self.find_donor(start);
                let ghost pre = *self;
                proof {
                    let c0 = self.spec_assignment()[e as int]->Some_0;
                    assert(self.spec_assignment()[e as int] == Some(c0));
                    if c0 == c {
                        assert(self.spec_clusters()[c as int].spec_members().contains(e));
                        let t = choose|t: int|
                            0 <= t < self.spec_clusters()[c as int].spec_members().len()
                                && self.spec_clusters()[c as int].spec_members()[t] == e;
                        assert(false);
                    }
                }
                self.insert(e, c);
                proof {
                    let c0 = pre.spec_assignment()[e as int]->Some_0;
                    assert(pre.spec_clusters()[c0 as int].spec_members().len() > 1);
                    assert(pre.spec_assignment()[e as int]
                        == old(self).spec_assignment()[e as int]) by {
                        if pre.spec_assignment()[e as int] != old(self).spec_assignment()[e as int] {
                            assert(pre.spec_clusters()[c0 as int].spec_members().len() == 1);
                        }
                    }
                    assert(old(self).spec_clusters()[c as int].spec_members().len() == 0) by {
                        if old(self).spec_clusters()[c as int].spec_members().len() >= 1 {
                            assert(pre.spec_clusters()[c as int].spec_members().len() >= 1);
                        }
                    }
                    assert forall|t: int|
                        0 <= t < c + 1 implies (#[trigger] self.spec_clusters()[t]).spec_members().len()
                        >= 1 by {
                        if t == c {
                            assert(self.spec_clusters()[t].spec_members()
                                == pre.spec_clusters()[t].spec_members().push(e));
                        } else if t == c0 {
                            assert(self.spec_clusters()[t].spec_members().len()
                                == pre.spec_clusters()[t].spec_members().len() - 1);
                        } else {
                            assert(self.spec_clusters()[t].spec_members()
                                == pre.spec_clusters()[t].spec_members());
                        }
                    }
                    assert forall|t: int|
                        0 <= t < k && old(self).spec_clusters()[t].spec_members().len() >= 1
                            implies (#[trigger] self.spec_clusters()[t]).spec_members().len()
                        >= 1 by {
                        if t == c0 {
                            assert(self.spec_clusters()[t].spec_members().len()
                                == pre.spec_clusters()[t].spec_members().len() - 1);
                        } else if t != c {
                            assert(self.spec_clusters()[t].spec_members()
                                == pre.spec_clusters()[t].spec_members());
                        }
                    }
                    assert forall|x: int|
                        0 <= x < n && (#[trigger] self.spec_assignment()[x]) != old(
                            self,
                        ).spec_assignment()[x] implies self.spec_assignment()[x] is Some
                        && self.spec_assignment()[x]->Some_0 < c + 1 && old(
                            self,
                        ).spec_clusters()[self.spec_assignment()[x]->Some_0 as int].spec_members().len()
                        == 0 && self.spec_clusters()[self.spec_assignment()[x]->Some_0 as int].spec_members().len()
                        == 1 by {
                        if x == e {
                            assert(self.spec_assignment()[x] == Some(c));
                            assert(self.spec_clusters()[c as int].spec_members()
                                == pre.spec_clusters()[c as int].spec_members().push(e));
                        } else {
                            assert(self.spec_assignment()[x] == pre.spec_assignment()[x]);
                            let t = self.spec_assignment()[x]->Some_0;
                            assert(pre.spec_clusters()[t as int].spec_members().len() == 1);
                            assert(t != c0);
                            assert(t != c);
                            assert(self.spec_clusters()[t as int].spec_members()
                                == pre.spec_clusters()[t as int].spec_members());
                        }
                    }
                }
            }
            c = c + 1;
        }
        proof {
            assert(self.cluster_index.len() == self.spec_assignment().len());
            let pre_a = old(self).spec_assignment();
            let post_a = self.spec_assignment();
            assert forall|x: int|
                0 <= x < pre_a.len() && (#[trigger] post_a[x]) != pre_a[x] implies post_a[x]
                is Some && !occupied(pre_a, post_a[x]->Some_0 as int) by {
                let t = post_a[x]->Some_0;
                assert(old(self).spec_clusters()[t as int].spec_members().len() == 0);
                if occupied(pre_a, t as int) {
                    let w = choose|w: int| 0 <= w < pre_a.len() && pre_a[w] == Some(
                        ((t as int) as usize),
                    );
                    assert(old(self).spec_clusters()[t as int].spec_members().contains(
                        w as usize,
                    ));
                    let i = choose|i: int|
                        0 <= i < old(self).spec_clusters()[t as int].spec_members().len()
                            && old(self).spec_clusters()[t as int].spec_members()[i]
                            == w as usize;
                    assert(false);
                }
            }
            assert forall|e1: int, e2: int|
                0 <= e1 < pre_a.len() && 0 <= e2 < pre_a.len() && e1 != e2 && (#[trigger] post_a[e1])
                    != pre_a[e1] && (#[trigger] post_a[e2]) != pre_a[e2] implies post_a[e1]
                != post_a[e2] by {
                if post_a[e1] == post_a[e2] {
                    let t = post_a[e1]->Some_0;
                    let ms = self.spec_clusters()[t as int].spec_members();
                    assert(ms.len() == 1);
                    assert(ms.contains(e1 as usize));
                    assert(ms.contains(e2 as usize));
                    let i1 = choose|i: int| 0 <= i < ms.len() && ms[i] == e1 as usize;
                    let i2 = choose|i: int| 0 <= i < ms.len() && ms[i] == e2 as usize;
                    assert(i1 == 0 && i2 == 0);
                    assert(false);
                }
            }
        }
    }
}

/// In a complete, consistent partition with an empty cluster, some cluster
/// must hold at least two elements whenever `k <= n`: the assignment maps
/// the `n` elements injectively into the `k - 1` nonempty clusters
/// otherwise.
proof fn lemma_donor_exists(p: Partition)
    requires
        p.inv(),
        p.complete(),
        p.spec_k() <= p.spec_n(),
        p.spec_n() <= usize::MAX,
        p.spec_k() <= usize::MAX,
        exists|c0: int|
            0 <= c0 < p.spec_k() && (#[trigger] p.spec_clusters()[c0]).spec_members().len() == 0,
    ensures
        exists|t: int| 0 <= t < p.spec_n() && !(#[trigger] p.home_small(t)),
{
    if exists|t: int| 0 <= t < p.spec_n() && !(#[trigger] p.home_small(t)) {
        return ;
    }
    assert(forall|t: int| 0 <= t < p.spec_n() ==> #[trigger] p.home_small(t));
    let n = p.spec_n();
    let k = p.spec_k();
    let c0 = choose|c0: int|
        0 <= c0 < k && (#[trigger] p.spec_clusters()[c0]).spec_members().len() == 0;
    let f = |e: int| p.spec_assignment()[e]->Some_0 as int;
    let dom = vstd::set_lib::set_int_range(0, n);
    vstd::set_lib::lemma_int_range(0, n);
    assert(vstd::relations::injective_on(f, dom)) by {
        assert forall|e1: int, e2: int|
            dom.contains(e1) && dom.contains(e2) && #[trigger] f(e1) == #[trigger] f(e2)
                implies e1 == e2 by {
            let c = f(e1);
            assert(p.spec_assignment()[e1] == Some(c as usize));
            assert(p.spec_assignment()[e2] == Some(c as usize));
            let ms = p.spec_clusters()[c].spec_members();
            assert(ms.contains(e1 as usize));
            assert(ms.contains(e2 as usize));
            let t1 = choose|t: int| 0 <= t < ms.len() && ms[t] == e1 as usize;
            let t2 = choose|t: int| 0 <= t < ms.len() && ms[t] == e2 as usize;
            assert(p.home_small(e1));
            assert(ms.len() <= 1);
            assert(t1 == t2);
        }
    }
    let img = dom.map(f);
    vstd::set_lib::lemma_map_size(dom, img, f);
    let target = vstd::set_lib::set_int_range(0, k).remove(c0);
    vstd::set_lib::lemma_int_range(0, k);
    assert(img.subset_of(target)) by {
        assert forall|y: int| img.contains(y) implies target.contains(y) by {
            let e = choose|e: int| dom.contains(e) && f(e) == y;
            assert(p.spec_assignment()[e] == Some(y as usize));
            assert(0 <= y < k);
            if y == c0 {
                let ms = p.spec_clusters()[c0].spec_members();
                assert(ms.contains(e as usize));
                let t = choose|t: int| 0 <= t < ms.len() && ms[t] == e as usize;
                assert(false);
            }
        }
    }
    vstd::set_lib::lemma_len_subset(img, target);
    assert(target.len() == k - 1) by {
        assert(vstd::set_lib::set_int_range(0, k).contains(c0));
    }
    assert(n <= k - 1);
    assert(false);
}

/// Partitions are equal exactly when their assignments are equal: cluster
/// ordering details and centroid values are not part of identity.
impl PartialEq for Partition {
    fn eq(&self, other: &Partition) -> (r: bool) {
        self.same_assignment(other)
    }
}

impl vstd::std_specs::cmp::PartialEqSpecImpl for Partition {
    open spec fn obeys_eq_spec() -> bool {
        true
    }

    open spec fn eq_spec(&self, other: &Partition) -> bool {
        self.spec_assignment() == other.spec_assignment()
    }
}

/// Assignment and membership agree in both directions in any consistent
/// partition: element `e` is assigned to cluster `c` exactly when cluster
/// `c`'s member set holds `e`.
pub proof fn lemma_assignment_membership(p: Partition, e: usize, c: usize)
    requires
        p.inv(),
        (e as int) < p.spec_n(),
        (c as int) < p.spec_k(),
    ensures
        p.spec_assignment()[e as int] == Some(c) <==> p.spec_clusters()[c as int].spec_members().contains(
            e,
        ),
{
    if p.spec_assignment()[e as int] == Some(c) {
        assert((#[trigger] p.spec_assignment()[e as int]) matches Some(cc) ==> p.spec_clusters()[cc as int].spec_members().contains(e));
    }
    if p.spec_clusters()[c as int].spec_members().contains(e) {
        let t = choose|t: int|
            0 <= t < p.spec_clusters()[c as int].spec_members().len()
                && p.spec_clusters()[c as int].spec_members()[t] == e;
        assert(p.spec_assignment()[p.spec_clusters()[c as int].spec_members()[t] as int] == Some(
            c,
        ));
    }
}

/// Fitness is a function of the assignment and the clusters' members and
/// centroids alone: two partitions that agree on those have equal fitness.
pub proof fn lemma_fitness_congruent(prob: Problem, a: Partition, b: Partition)
    requires
        a.spec_assignment() == b.spec_assignment(),
        a.spec_clusters().len() == b.spec_clusters().len(),
        forall|c: int|
            0 <= c < a.spec_clusters().len() ==> (#[trigger] a.spec_clusters()[c]).spec_members()
                == (#[trigger] b.spec_clusters()[c]).spec_members()
                && a.spec_clusters()[c].spec_centroid() == b.spec_clusters()[c].spec_centroid(),
    ensures
        spec_fitness(prob, a) == spec_fitness(prob, b),
{
    crate::problem::lemma_intra_sum_congruent(
        prob.spec_data(),
        a.spec_clusters(),
        b.spec_clusters(),
    );
}

/// After moving `element` into `cluster` (membership updated on both sides),
/// the two-way assignment/membership consistency still holds.
proof fn lemma_insert_preserves_inv(
    pre: Partition,
    post: Partition,
    element: usize,
    cluster: usize,
)
    requires
        pre.inv(),
        pre.spec_n() <= usize::MAX,
        pre.spec_k() <= usize::MAX,
        element < pre.spec_n(),
        cluster < pre.spec_k(),
        pre.spec_assignment()[element as int] != Some(cluster),
        post.spec_k() == pre.spec_k(),
        post.spec_n() == pre.spec_n(),
        post.spec_assignment() == pre.spec_assignment().update(element as int, Some(cluster)),
        forall|c: int|
            0 <= c < pre.spec_k() ==> (#[trigger] post.spec_clusters()[c]).wf(
                pre.spec_n(),
                pre.spec_dim(),
            ),
        post.spec_clusters()[cluster as int].spec_members()
            == pre.spec_clusters()[cluster as int].spec_members().push(element),
        forall|c: int|
            0 <= c < pre.spec_k() && c != cluster && Some(c as usize)
                != pre.spec_assignment()[element as int]
                ==> (#[trigger] post.spec_clusters()[c]).spec_members()
                == pre.spec_clusters()[c].spec_members(),
        (pre.spec_assignment()[element as int] is Some ==> {
            let c0 = pre.spec_assignment()[element as int]->Some_0;
            forall|x: usize|
                #[trigger] post.spec_clusters()[c0 as int].spec_members().contains(x) == (
                pre.spec_clusters()[c0 as int].spec_members().contains(x) && x != element)
        }),
        post.spec_dim() == pre.spec_dim(),
    ensures
        post.inv(),
{
    assert forall|e: int|
        0 <= e < post.spec_n() implies ((#[trigger] post.spec_assignment()[e]) matches Some(c)
        ==> c < post.spec_k() && post.spec_clusters()[c as int].spec_members().contains(
        e as usize,
    )) by {
        if post.spec_assignment()[e] is Some {
            let c = post.spec_assignment()[e]->Some_0;
            if e == element {
                assert(c == cluster);
                assert(post.spec_clusters()[cluster as int].spec_members().contains(element)) by {
                    let ms = post.spec_clusters()[cluster as int].spec_members();
                    assert(ms[ms.len() - 1] == element);
                }
            } else {
                assert(pre.spec_assignment()[e] == post.spec_assignment()[e]);
                assert(pre.spec_clusters()[c as int].spec_members().contains(e as usize));
                if c == cluster {
                    let ms = pre.spec_clusters()[cluster as int].spec_members();
                    let t = choose|t: int| 0 <= t < ms.len() && ms[t] == e as usize;
                    assert(post.spec_clusters()[cluster as int].spec_members()[t] == e as usize);
                } else if Some(c) == pre.spec_assignment()[element as int] {
                    let c0 = pre.spec_assignment()[element as int]->Some_0;
                    assert(c0 == c);
                    assert(post.spec_clusters()[c0 as int].spec_members().contains(e as usize)
                        == (pre.spec_clusters()[c0 as int].spec_members().contains(e as usize)
                        && (e as usize) != element));
                    assert(post.spec_clusters()[c as int].spec_members().contains(e as usize));
                } else {
                    assert(post.spec_clusters()[c as int].spec_members()
                        == pre.spec_clusters()[c as int].spec_members());
                }
            }
        }
    }
    assert forall|c: int, t: int|
        0 <= c < post.spec_k() && 0 <= t < post.spec_clusters()[c].spec_members().len()
            implies post.spec_assignment()[#[trigger] post.spec_clusters()[c].spec_members()[t] as int]
            == Some(c as usize) by {
        let x = post.spec_clusters()[c].spec_members()[t];
        assert(post.spec_clusters()[c].spec_members().contains(x));
        if c == cluster {
            let pre_ms = pre.spec_clusters()[cluster as int].spec_members();
            if t < pre_ms.len() {
                assert(pre_ms[t] == x);
                assert(pre.spec_assignment()[x as int] == Some(c as usize));
                assert(x != element) by {
                    if x == element {
                        assert(pre.spec_assignment()[element as int] == Some(cluster));
                    }
                }
            } else {
                assert(x == element);
            }
        } else if pre.spec_assignment()[element as int] is Some && c
            == pre.spec_assignment()[element as int]->Some_0 {
            let c0 = pre.spec_assignment()[element as int]->Some_0;
            assert(post.spec_clusters()[c0 as int].spec_members().contains(x) == (
            pre.spec_clusters()[c0 as int].spec_members().contains(x) && x != element));
            assert(pre.spec_clusters()[c].spec_members().contains(x) && x != element);
            let w = choose|w: int|
                0 <= w < pre.spec_clusters()[c].spec_members().len()
                    && pre.spec_clusters()[c].spec_members()[w] == x;
            assert(pre.spec_assignment()[x as int] == Some(c as usize));
        } else {
            assert(Some(c as usize) != pre.spec_assignment()[element as int]) by {
                if pre.spec_assignment()[element as int] is Some {
                    let c0 = pre.spec_assignment()[element as int]->Some_0;
                    assert(c != c0);
                }
            }
            assert(post.spec_clusters()[c].spec_members()
                == pre.spec_clusters()[c].spec_members());
            let w = choose|w: int|
                0 <= w < pre.spec_clusters()[c].spec_members().len()
                    && pre.spec_clusters()[c].spec_members()[w] == x;
            assert(pre.spec_assignment()[x as int] == Some(c as usize));
            assert(x != element) by {
                if x == element {
                    assert(pre.spec_assignment()[element as int] == Some(c as usize));
                }
            }
        }
    }
}

} // verus!
