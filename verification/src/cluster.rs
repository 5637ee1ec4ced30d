//! A cluster: the current centroid and the set of member element indices.
//!
//! Members are kept as a duplicate-free vector of element indices. The
//! centroid is a point of the problem space; it may be stale with respect to
//! the members, recomputing it is a separate, caller-driven step.

use vstd::prelude::*;
use crate::{COORD_LIMIT, UNIT};
use crate::geometry::is_centroid;
use crate::problem::Problem;
use crate::rng::RandomSource;

verus! {

pub struct Cluster {
    centroid: Vec<u64>,
    members: Vec<usize>,
}

impl Cluster {
    /// The member element indices, in insertion order, free of duplicates.
    pub closed spec fn spec_members(self) -> Seq<usize> {
        self.members@
    }

    /// The stored centroid coordinates.
    pub closed spec fn spec_centroid(self) -> Seq<u64> {
        self.centroid@
    }

    /// Well-formed for a problem with `n` elements and dimension `dim`.
    pub open spec fn wf(self, n: int, dim: int) -> bool {
        &&& self.spec_centroid().len() == dim
        &&& forall|j: int|
            0 <= j < dim ==> #[trigger] self.spec_centroid()[j] <= COORD_LIMIT
        &&& self.spec_members().no_duplicates()
        &&& forall|i: int|
            0 <= i < self.spec_members().len() ==> (#[trigger] self.spec_members()[i]) < n
    }

    /// Creates a new empty cluster with a zero centroid.
    pub fn new(dim: usize) -> (r: Cluster)
        ensures
            r.spec_members() =~= Seq::<usize>::empty(),
            r.spec_centroid().len() == dim,
            forall|j: int| 0 <= j < dim ==> #[trigger] r.spec_centroid()[j] == 0,
            forall|n: int| #[trigger] r.wf(n, dim as int),
    {
        let mut centroid: Vec<u64> = Vec::new();
        while centroid.len() < dim
            invariant
                centroid@.len() <= dim,
                forall|j: int| 0 <= j < centroid@.len() ==> #[trigger] centroid@[j] == 0,
            decreases dim - centroid.len(),
        {
            centroid.push(0);
        }
        Cluster { centroid, members: Vec::new() }
    }

    /// Creates a new empty cluster with a randomized centroid.
    pub fn new_rand(dim: usize, rng: &mut RandomSource) -> (r: Cluster)
        ensures
            r.spec_members() =~= Seq::<usize>::empty(),
            r.spec_centroid().len() == dim,
            forall|j: int| 0 <= j < dim ==> #[trigger] r.spec_centroid()[j] < UNIT,
            forall|n: int| #[trigger] r.wf(n, dim as int),
    {
        let mut cluster = Cluster::new(dim);
        cluster.randomize_centroid(rng);
        cluster
    }

    /// Replaces the centroid by a point drawn uniformly from the unit box.
    pub fn randomize_centroid(&mut self, rng: &mut RandomSource)
        ensures
            final(self).spec_members() == old(self).spec_members(),
            final(self).spec_centroid().len() == old(self).spec_centroid().len(),
            forall|j: int|
                0 <= j < final(self).spec_centroid().len()
                    ==> #[trigger] final(self).spec_centroid()[j] < UNIT,
            forall|n: int, dim: int|
                old(self).wf(n, dim) ==> #[trigger] final(self).wf(n, dim),
    {
        let dim = self.centroid.len();
        let mut fresh: Vec<u64> = Vec::new();
        while fresh.len() < dim
            invariant
                fresh@.len() <= dim,
                forall|j: int| 0 <= j < fresh@.len() ==> #[trigger] fresh@[j] < UNIT,
            decreases dim - fresh.len(),
        {
            fresh.push(rng.next_below(UNIT));
        }
        self.centroid = fresh;
    }

    /// Sets a new centroid of the same dimension.
    pub fn set_centroid(&mut self, c: Vec<u64>)
        requires
            c@.len() == old(self).spec_centroid().len(),
            forall|j: int| 0 <= j < c@.len() ==> #[trigger] c@[j] <= COORD_LIMIT,
        ensures
            final(self).spec_members() == old(self).spec_members(),
            final(self).spec_centroid() == c@,
            forall|n: int, dim: int|
                old(self).wf(n, dim) ==> #[trigger] final(self).wf(n, dim),
    {
        self.centroid = c;
    }

    /// Inserts a new element into the cluster; returns whether it was new.
    pub fn insert(&mut self, e: usize) -> (r: bool)
        ensures
            r == !old(self).spec_members().contains(e),
            r ==> final(self).spec_members() == old(self).spec_members().push(e),
            !r ==> final(self).spec_members() == old(self).spec_members(),
            final(self).spec_centroid() == old(self).spec_centroid(),
            forall|n: int, dim: int|
                old(self).wf(n, dim) && e < n ==> #[trigger] final(self).wf(n, dim),
    {
        if self.contains(e) {
            false
        } else {
            self.members.push(e);
            true
        }
    }

    /// Inserts a new element and, when it was new, recomputes the centroid
    /// from the current members.
    pub fn insert_and_update(&mut self, e: usize, problem: &Problem) -> (r: bool)
        requires
            problem.wf(),
            old(self).wf(problem.spec_n(), problem.spec_dim()),
            e < problem.spec_n(),
        ensures
            r == !old(self).spec_members().contains(e),
            r ==> final(self).spec_members() == old(self).spec_members().push(e) && is_centroid(
                problem.spec_data(),
                final(self).spec_members(),
                final(self).spec_centroid(),
                problem.spec_dim(),
            ),
            !r ==> final(self).spec_members() == old(self).spec_members()
                && final(self).spec_centroid() == old(self).spec_centroid(),
            final(self).wf(problem.spec_n(), problem.spec_dim()),
    {
        let success = self.insert(e);
        if success {
            proof {
                assert(self.spec_members().len() >= 1);
            }
            let centroid = problem.calc_centroid(&*self);
            self.set_centroid(centroid);
        }
        success
    }

    /// Removes an element from the cluster; returns whether it was present.
    pub fn remove(&mut self, e: usize) -> (r: bool)
        requires
            old(self).spec_members().no_duplicates(),
        ensures
            r == old(self).spec_members().contains(e),
            final(self).spec_members().len()
                == old(self).spec_members().len() - (if r { 1int } else { 0 }),
            forall|x: usize|
                #[trigger] final(self).spec_members().contains(x)
                    == (old(self).spec_members().contains(x) && x != e),
            r ==> exists|i: int|
                0 <= i < old(self).spec_members().len() && old(self).spec_members()[i] == e
                    && final(self).spec_members() == #[trigger] old(self).spec_members().remove(
                    i,
                ),
            final(self).spec_centroid() == old(self).spec_centroid(),
            forall|n: int, dim: int|
                old(self).wf(n, dim) ==> #[trigger] final(self).wf(n, dim),
    {
        let ghost orig = self.members@;
        let ghost orig_centroid = self.centroid@;
        let n = self.members.len();
        let mut i: usize = 0;
        while i < n
            invariant_except_break
                orig.no_duplicates(),
                n == self.members@.len(),
                self.members@ == orig,
                self.centroid@ == orig_centroid,
                i <= n,
                forall|jj: int| 0 <= jj < i ==> #[trigger] orig[jj] != e,
            ensures
                self.centroid@ == orig_centroid,
                (self.members@ == orig && forall|jj: int|
                    0 <= jj < orig.len() ==> #[trigger] orig[jj] != e) || (orig.contains(e)
                    && self.members@.no_duplicates() && self.members@.len() == orig.len() - 1
                    && (forall|x: usize| #[trigger]
                        self.members@.contains(x) == (orig.contains(x) && x != e)) && exists|
                        i: int,
                    |
                        0 <= i < orig.len() && orig[i] == e && self.members@
                            == #[trigger] orig.remove(i)),
            decreases n - i,
        {
            if self.members[i] == e {
                self.members.remove(i);
                proof {
                    assert(orig.contains(e)) by {
                        assert(orig[i as int] == e);
                    }
                    lemma_remove_once(orig, i as int, e);
                }
                break;
            }
            i = i + 1;
        }
        if self.members.len() != n {
            proof {
                assert forall|nn: int, dim: int|
                    old(self).wf(nn, dim) implies #[trigger] final(self).wf(nn, dim) by {
                    assert forall|ii: int|
                        0 <= ii < self.members@.len()
                            implies (#[trigger] self.members@[ii]) < nn by {
                        let x = self.members@[ii];
                        assert(self.members@.contains(x));
                        assert(orig.contains(x));
                        let w = choose|w: int| 0 <= w < orig.len() && orig[w] == x;
                        assert(orig[w] < nn);
                    }
                }
            }
            return true;
        }
        proof {
            assert forall|x: usize| #[trigger]
                self.spec_members().contains(x)
                    == (old(self).spec_members().contains(x) && x != e) by {
                if old(self).spec_members().contains(x) && x == e {
                    let w = choose|w: int| 0 <= w < orig.len() && orig[w] == e;
                    assert(orig[w] != e);
                }
            }
        }
        false
    }

    /// Returns true if the cluster contains an element.
    pub fn contains(&self, e: usize) -> (r: bool)
        ensures
            r == self.spec_members().contains(e),
    {
        let n = self.members.len();
        let mut i: usize = 0;
        while i < n
            invariant
                n == self.members@.len(),
                i <= n,
                forall|jj: int| 0 <= jj < i ==> #[trigger] self.members@[jj] != e,
            decreases n - i,
        {
            if self.members[i] == e {
                return true;
            }
            i = i + 1;
        }
        proof {
            if self.spec_members().contains(e) {
                let w = choose|w: int|
                    0 <= w < self.members@.len() && self.members@[w] == e;
                assert(self.members@[w] != e);
            }
        }
        false
    }

    /// Returns a deep copy of the cluster.
    pub fn duplicate(&self) -> (r: Cluster)
        ensures
            r.spec_members() == self.spec_members(),
            r.spec_centroid() == self.spec_centroid(),
    {
        let mut centroid: Vec<u64> = Vec::new();
        let d = self.centroid.len();
        let mut j: usize = 0;
        while j < d
            invariant
                d == self.centroid@.len(),
                j <= d,
                centroid@ =~= self.centroid@.take(j as int),
            decreases d - j,
        {
            centroid.push(self.centroid[j]);
            j = j + 1;
        }
        let mut members: Vec<usize> = Vec::new();
        let m = self.members.len();
        let mut t: usize = 0;
        while t < m
            invariant
                m == self.members@.len(),
                t <= m,
                members@ =~= self.members@.take(t as int),
            decreases m - t,
        {
            members.push(self.members[t]);
            t = t + 1;
        }
        proof {
            assert(centroid@ =~= self.centroid@);
            assert(members@ =~= self.members@);
        }
        Cluster { centroid, members }
    }

    /// Returns a reference to the member indices.
    pub fn elements(&self) -> (r: &Vec<usize>)
        ensures
            r@ == self.spec_members(),
    {
        &self.members
    }

    /// Returns a reference to the centroid coordinates.
    pub fn centroid(&self) -> (r: &Vec<u64>)
        ensures
            r@ == self.spec_centroid(),
    {
        &self.centroid
    }

    /// Returns the dimension of the centroid.
    pub fn dimension(&self) -> (r: usize)
        ensures
            r == self.spec_centroid().len(),
    {
        self.centroid.len()
    }

    /// Returns true if the cluster has no members.
    pub fn is_empty(&self) -> (r: bool)
        ensures
            r == (self.spec_members().len() == 0),
    {
        self.members.len() == 0
    }

    /// Returns the number of members.
    pub fn len(&self) -> (r: usize)
        ensures
            r == self.spec_members().len(),
    {
        self.members.len()
    }
}

/// Removing the only occurrence of `e` from a duplicate-free sequence
/// removes exactly `e` from its membership.
proof fn lemma_remove_once(s: Seq<usize>, i: int, e: usize)
    requires
        s.no_duplicates(),
        0 <= i < s.len(),
        s[i] == e,
    ensures
        forall|x: usize|
            #[trigger] s.remove(i).contains(x) == (s.contains(x) && x != e),
        s.remove(i).no_duplicates(),
{
    let t = s.remove(i);
    assert forall|x: usize| #[trigger] t.contains(x) == (s.contains(x) && x != e) by {
        if t.contains(x) {
            let w = choose|w: int| 0 <= w < t.len() && t[w] == x;
            if w < i {
                assert(s[w] == x);
            } else {
                assert(s[w + 1] == x);
            }
            assert(s.contains(x)) by {
                if w < i {
                    assert(s[w] == x);
                } else {
                    assert(s[w + 1] == x);
                }
            }
            if x == e {
                if w < i {
                    assert(s[w] == s[i]);
                } else {
                    assert(s[w + 1] == s[i]);
                }
            }
        }
        if s.contains(x) && x != e {
            let w = choose|w: int| 0 <= w < s.len() && s[w] == x;
            if w < i {
                assert(t[w] == x);
            } else {
                assert(w != i);
                assert(t[w - 1] == x);
            }
        }
    }
}

} // verus!
