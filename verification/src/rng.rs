//! Seeded randomness for the optimizers.
//!
//! Every search routine threads a `RandomSource` through its calls, so two
//! runs with the same seed take the same decisions. The generator is a PCG-64
//! stream; the library states only what holds of every draw (a bound, a
//! permutation), never which value comes out.

use vstd::prelude::*;
use rand::Rng;
use rand::SeedableRng;
use rand::seq::SliceRandom;

verus! {

#[verifier::external_type_specification]
#[verifier::external_body]
pub struct ExLcg128Xsl64(rand_pcg::Lcg128Xsl64);

/// A seeded pseudorandom generator owned by one optimizer run.
pub struct RandomSource {
    inner: rand_pcg::Pcg64,
}

impl RandomSource {
    /// Relies on rand_core's `SeedableRng::seed_from_u64`: builds a PCG-64
    /// generator deterministically from the seed.
    #[verifier::external_body]
    pub fn from_seed(seed: u64) -> RandomSource {
        RandomSource { inner: rand_pcg::Pcg64::seed_from_u64(seed) }
    }

    /// Relies on rand's `Rng::gen_range` over `0..bound`: returns a value of
    /// the half-open range, and panics only when the range is empty.
    #[verifier::external_body]
    pub(crate) fn next_below(&mut self, bound: u64) -> (r: u64)
        requires
            bound > 0,
        ensures
            r < bound,
    {
        self.inner.gen_range(0..bound)
    }

    /// Relies on rand's `SliceRandom::shuffle`: permutes the slice in place
    /// by swaps, so the entries afterwards are the entries before.
    #[verifier::external_body]
    pub(crate) fn shuffle(&mut self, items: &mut Vec<u64>)
        ensures
            final(items)@.len() == old(items)@.len(),
            final(items)@.to_multiset() == old(items)@.to_multiset(),
    {
        items.shuffle(&mut self.inner)
    }

    /// A uniformly shuffled permutation of the indices `0..n`.
    pub(crate) fn shuffled_indices(&mut self, n: usize) -> (r: Vec<u64>)
        ensures
            r@.len() == n,
            forall|i: int| 0 <= i < n ==> (#[trigger] r@[i]) < n,
            r@.no_duplicates(),
    {
        let mut v: Vec<u64> = Vec::new();
        let mut t: usize = 0;
        while t < n
            invariant
                t <= n,
                v@.len() == t,
                forall|i: int| 0 <= i < t ==> (#[trigger] v@[i]) == i,
            decreases n - t,
        {
            v.push(t as u64);
            t = t + 1;
        }
        let ghost before = v@;
        proof {
            assert(before.no_duplicates());
        }
        self.shuffle(&mut v);
        proof {
            broadcast use vstd::seq_lib::group_to_multiset_ensures;

            before.lemma_multiset_has_no_duplicates();
            v@.lemma_multiset_has_no_duplicates_conv();
            assert forall|i: int| 0 <= i < v@.len() implies (#[trigger] v@[i]) < n by {
                let x = v@[i];
                assert(v@.contains(x));
                assert(v@.to_multiset().count(x) > 0);
                assert(before.to_multiset().count(x) > 0);
                assert(before.contains(x));
                let w = choose|w: int| 0 <= w < before.len() && before[w] == x;
                assert(before[w] < n);
            }
        }
        v
    }

    /// Draw an index below `bound`.
    pub(crate) fn index_below(&mut self, bound: usize) -> (r: usize)
        requires
            bound > 0,
        ensures
            r < bound,
    {
        let drawn: u64 = self.next_below(bound as u64);
        drawn as usize
    }
}

} // verus!
