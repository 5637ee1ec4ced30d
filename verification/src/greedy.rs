//! The constructive greedy heuristic: sequential least-infeasible
//! assignment with nearest-centroid tie-breaking and iterative centroid
//! refinement.
//!
//! Elements are visited in a shuffled order; passes repeat until one makes
//! no change, so the returned partition is a fixed point: every element
//! already sits in its best cluster. A bounded pass budget guards against
//! oscillation; an attempt that still oscillates at the budget, or leaves
//! some cluster empty, is restarted from fresh random centroids, a bounded
//! number of times.

use vstd::prelude::*;
use vstd::seq_lib::seq_to_set_is_finite;
use vstd::set_lib::{lemma_int_range, lemma_subset_equality, set_int_range};
use crate::geometry::{dist, is_centroid};
use crate::partition::{spec_fitness, Partition};
use crate::problem::{count_violations, delta_links, links_of, spec_deviation, Problem};
use crate::rng::RandomSource;

verus! {

/// The constructor exhausted its retry budget without producing a valid
/// (no-empty-cluster) fixed-point partition.
#[derive(Clone, Copy, Debug, PartialEq, Eq, Structural)]
pub struct ConstructionFailed;

/// How many times the constructor restarts from fresh random centroids.
pub const GREEDY_RETRY_LIMIT: usize = 50;

/// Upper bound on refinement passes in one attempt, so that a pathological
/// oscillation between assignments cannot run forever. An attempt that is
/// still changing at the budget counts as failed.
pub const GREEDY_PASS_LIMIT: usize = 1000;

/// The infeasibility increment of assigning `element` to cluster `c`.
pub open spec fn assign_delta(prob: Problem, p: Partition, element: int, c: int) -> int {
    delta_links(links_of(prob.spec_constraints(), element), c, p.spec_assignment())
}

/// The distance from `element` to the stored centroid of cluster `c`.
pub open spec fn centroid_gap(prob: Problem, p: Partition, element: int, c: int) -> int {
    dist(prob.spec_data()[element], p.spec_clusters()[c].spec_centroid())
}

/// Cluster `a` beats or ties cluster `b` for `element`: a strictly smaller
/// infeasibility increment, or an equal one with a strictly nearer
/// centroid, or both equal and a lower or equal index.
pub open spec fn lex_best(prob: Problem, p: Partition, element: int, a: int, b: int) -> bool {
    ||| assign_delta(prob, p, element, a) < assign_delta(prob, p, element, b)
    ||| (assign_delta(prob, p, element, a) == assign_delta(prob, p, element, b) && (centroid_gap(
        prob,
        p,
        element,
        a,
    ) < centroid_gap(prob, p, element, b) || (centroid_gap(prob, p, element, a) == centroid_gap(
        prob,
        p,
        element,
        b,
    ) && a <= b)))
}

/// Element `e` is settled: it is assigned, and its own cluster is the
/// least-infeasibility choice among all clusters, ties broken by nearest
/// centroid, then by lowest cluster index.
pub open spec fn settled(prob: Problem, p: Partition, e: int) -> bool {
    &&& p.spec_assignment()[e] is Some
    &&& forall|c: int|
        0 <= c < p.spec_k() ==> #[trigger] lex_best(
            prob,
            p,
            e,
            p.spec_assignment()[e]->Some_0 as int,
            c,
        )
}

/// Two clusters that each beat or tie the other are the same cluster.
proof fn lemma_lex_best_antisymmetric(prob: Problem, p: Partition, element: int, a: int, b: int)
    requires
        lex_best(prob, p, element, a, b),
        lex_best(prob, p, element, b, a),
    ensures
        a == b,
{
}

/// Settledness depends only on the assignment and the centroids.
proof fn lemma_settled_congruent(prob: Problem, a: Partition, b: Partition, e: int)
    requires
        a.inv(),
        0 <= e < a.spec_n(),
        settled(prob, a, e),
        b.spec_assignment() == a.spec_assignment(),
        b.spec_clusters().len() == a.spec_clusters().len(),
        forall|c: int|
            0 <= c < a.spec_clusters().len() ==> (#[trigger] b.spec_clusters()[c]).spec_centroid()
                == a.spec_clusters()[c].spec_centroid(),
    ensures
        settled(prob, b, e),
{
    let home = a.spec_assignment()[e]->Some_0 as int;
    assert(0 <= home < a.spec_clusters().len());
    assert forall|c: int| 0 <= c < b.spec_k() implies #[trigger] lex_best(
        prob,
        b,
        e,
        home,
        c,
    ) by {
        assert(lex_best(prob, a, e, home, c));
        assert(assign_delta(prob, b, e, home) == assign_delta(prob, a, e, home));
        assert(assign_delta(prob, b, e, c) == assign_delta(prob, a, e, c));
        assert(centroid_gap(prob, b, e, home) == centroid_gap(prob, a, e, home));
        assert(centroid_gap(prob, b, e, c) == centroid_gap(prob, a, e, c));
    }
}

/// A duplicate-free sequence of `n` indices below `n` visits every index.
proof fn lemma_order_covers(s: Seq<u64>, n: int)
    requires
        0 <= n,
        s.len() == n,
        s.no_duplicates(),
        forall|i: int| 0 <= i < s.len() ==> (#[trigger] s[i]) < n,
    ensures
        forall|e: u64| e < n ==> #[trigger] s.contains(e),
{
    broadcast use seq_to_set_is_finite;

    let m = s.map_values(|x: u64| x as int);
    assert(m.no_duplicates()) by {
        assert forall|i: int, j: int|
            0 <= i < m.len() && 0 <= j < m.len() && i != j implies m[i] != m[j] by {
            assert(s[i] != s[j]);
        }
    }
    m.unique_seq_to_set();
    lemma_int_range(0, n);
    assert(m.to_set().subset_of(set_int_range(0, n))) by {
        assert forall|y: int| m.to_set().contains(y) implies set_int_range(0, n).contains(
            y,
        ) by {
            let i = choose|i: int| 0 <= i < m.len() && m[i] == y;
            assert(s[i] < n);
        }
    }
    lemma_subset_equality(m.to_set(), set_int_range(0, n));
    assert forall|e: u64| e < n implies #[trigger] s.contains(e) by {
        assert(set_int_range(0, n).contains(e as int));
        assert(m.to_set().contains(e as int));
        assert(m.contains(e as int));
        let i = choose|i: int| 0 <= i < m.len() && m[i] == e as int;
        assert(s[i] == e);
    }
}

/// Chooses the cluster with the least infeasibility increment for `element`;
/// among those, the one with the nearest centroid; among those, the lowest
/// index.
fn select_best_cluster(problem: &Problem, partition: &Partition, element: usize) -> (r: usize)
    requires
        problem.wf(),
        partition.inv(),
        partition.compatible(*problem),
        element < problem.spec_n(),
    ensures
        r < partition.spec_k(),
        forall|c: int|
            0 <= c < partition.spec_k() ==> #[trigger] lex_best(
                *problem,
                *partition,
                element as int,
                r as int,
                c,
            ),
{
    let k = partition.k();
    let mut best: usize = 0;
    let mut best_delta = problem.inf_insert(element, 0, partition.cluster_index());
    let mut best_gap = crate::geometry::point_distance(
        problem.data(element),
        partition.get_cluster(0).centroid(),
    );
    let mut c: usize = 1;
    while c < k
        invariant
            problem.wf(),
            partition.inv(),
            partition.compatible(*problem),
            element < problem.spec_n(),
            k == partition.spec_k(),
            1 <= c <= k,
            best < c,
            best_delta as int == assign_delta(*problem, *partition, element as int, best as int),
            best_gap as int == centroid_gap(*problem, *partition, element as int, best as int),
            forall|t: int|
                0 <= t < c ==> best_delta as int <= #[trigger] assign_delta(
                    *problem,
                    *partition,
                    element as int,
                    t,
                ),
            forall|t: int|
                0 <= t < c && #[trigger] assign_delta(*problem, *partition, element as int, t)
                    == best_delta as int ==> (best_gap as int) < centroid_gap(
                    *problem,
                    *partition,
                    element as int,
                    t,
                ) || (best_gap as int == centroid_gap(*problem, *partition, element as int, t)
                    && best <= t),
        decreases k - c,
    {
        let delta = problem.inf_insert(element, c, partition.cluster_index());
        let gap = crate::geometry::point_distance(
            problem.data(element),
            partition.get_cluster(c).centroid(),
        );
        if delta < best_delta || (delta == best_delta && gap < best_gap) {
            best = c;
            best_delta = delta;
            best_gap = gap;
        }
        c = c + 1;
    }
    proof {
        assert forall|t: int| 0 <= t < partition.spec_k() implies #[trigger] lex_best(
            *problem,
            *partition,
            element as int,
            best as int,
            t,
        ) by {
            assert(best_delta as int <= assign_delta(*problem, *partition, element as int, t));
        }
    }
    best
}

/// One refinement pass: every element, in the given visitation order, is
/// reassigned to its currently best cluster; returns whether anything
/// changed. A pass that changes nothing certifies that every element was
/// already settled, and a pass over a fully settled partition changes
/// nothing.
fn refine_pass(problem: &Problem, partition: &mut Partition, order: &Vec<u64>) -> (changed: bool)
    requires
        problem.wf(),
        old(partition).inv(),
        old(partition).compatible(*problem),
        order@.len() == problem.spec_n(),
        order@.no_duplicates(),
        forall|i: int| 0 <= i < order@.len() ==> (#[trigger] order@[i]) < problem.spec_n(),
    ensures
        final(partition).inv(),
        final(partition).compatible(*problem),
        final(partition).complete(),
        forall|c: int|
            0 <= c < problem.spec_k() ==> (#[trigger] final(partition).spec_clusters()[c]).spec_centroid()
                == old(partition).spec_clusters()[c].spec_centroid(),
        !changed ==> *final(partition) == *old(partition) && forall|e: int|
            0 <= e < problem.spec_n() ==> settled(*problem, *old(partition), e),
        (forall|e: int| 0 <= e < problem.spec_n() ==> settled(*problem, *old(partition), e))
            ==> !changed,
    {
        let ghost pre = *partition;
        let n = partition.problem_size();
        let k = partition.k();
        let mut changed = false;
        let mut t: usize = 0;
        while t < n
            invariant
                problem.wf(),
                partition.inv(),
                partition.compatible(*problem),
                n == problem.spec_n(),
                k == problem.spec_k(),
                order@.len() == n,
                forall|i: int| 0 <= i < order@.len() ==> (#[trigger] order@[i]) < n,
                t <= n,
                pre == *old(partition),
                forall|c: int|
                    0 <= c < k ==> (#[trigger] partition.spec_clusters()[c]).spec_centroid()
                        == pre.spec_clusters()[c].spec_centroid(),
                forall|i: int|
                    0 <= i < t ==> (#[trigger] partition.spec_assignment()[order@[i] as int])
                        is Some,
                !changed ==> *partition == pre && (forall|i: int|
                    0 <= i < t ==> settled(*problem, pre, #[trigger] order@[i] as int)),
                (forall|e: int| 0 <= e < n ==> settled(*problem, pre, e)) ==> !changed,
            decreases n - t,
        {
            let element = order[t] as usize;
            let best = select_best_cluster(problem, partition, element);
            let stays = match partition.get_cluster_index_for(element) {
                Some(current) => current == best,
                None => false,
            };
            if !stays {
                proof {
                    if forall|e: int| 0 <= e < n ==> settled(*problem, pre, e) {
                        assert(settled(*problem, pre, element as int));
                        let home = pre.spec_assignment()[element as int]->Some_0;
                        assert(lex_best(
                            *problem,
                            pre,
                            element as int,
                            home as int,
                            best as int,
                        ));
                        assert(lex_best(
                            *problem,
                            *partition,
                            element as int,
                            best as int,
                            home as int,
                        ));
                        lemma_lex_best_antisymmetric(
                            *problem,
                            pre,
                            element as int,
                            home as int,
                            best as int,
                        );
                        assert(false);
                    }
                }
                partition.insert(element, best);
                changed = true;
            } else {
                proof {
                    if !changed {
                        assert(*partition == pre);
                        assert(settled(*problem, pre, element as int)) by {
                            assert(pre.spec_assignment()[element as int] == Some(best));
                        }
                    }
                }
            }
            t = t + 1;
        }
        proof {
            lemma_order_covers(order@, n as int);
            assert forall|e: int|
                0 <= e < n implies (#[trigger] partition.spec_assignment()[e]) is Some by {
                assert(order@.contains(e as u64));
                let i = choose|i: int| 0 <= i < order@.len() && order@[i] == e as u64;
                assert(partition.spec_assignment()[order@[i] as int] is Some);
            }
            if !changed {
                assert forall|e: int| 0 <= e < n implies settled(*problem, pre, e) by {
                    assert(order@.contains(e as u64));
                    let i = choose|i: int| 0 <= i < order@.len() && order@[i] == e as u64;
                    assert(settled(*problem, pre, order@[i] as int));
                }
            }
        }
        changed
    }

/// Greedy constructive heuristic. Returns a valid fixed-point partition
/// with its fitness, total infeasibility and general deviation, or
/// `ConstructionFailed` when no attempt within the retry budget settled on
/// a valid partition. With a single cluster the first attempt always
/// settles, so construction cannot fail.
pub fn greedy(problem: &Problem, rng: &mut RandomSource) -> (r: Result<
    (Partition, u128, usize, u64),
    ConstructionFailed,
>)
    requires
        problem.wf(),
    ensures
        r matches Ok(out) ==> {
            &&& out.0.inv()
            &&& out.0.compatible(*problem)
            &&& out.0.complete()
            &&& out.0.spec_valid()
            &&& forall|e: int| 0 <= e < problem.spec_n() ==> settled(*problem, out.0, e)
            &&& out.1 as int == spec_fitness(*problem, out.0)
            &&& out.2 as int == count_violations(
                problem.spec_constraints(),
                out.0.spec_assignment(),
            )
            &&& out.3 as int == spec_deviation(problem.spec_data(), out.0.spec_clusters())
        },
        problem.spec_k() == 1 ==> r is Ok,
{
    let n = problem.len();
    let k = problem.k();
    let dim = problem.data(0).len();
    let mut attempt: usize = 0;
    while attempt < GREEDY_RETRY_LIMIT
        invariant
            problem.wf(),
            n == problem.spec_n(),
            k == problem.spec_k(),
            dim == problem.spec_dim(),
            k == 1 ==> attempt == 0,
        decreases GREEDY_RETRY_LIMIT - attempt,
    {
        let mut partition = Partition::new(k, dim, n, rng);
        let order = rng.shuffled_indices(n);
        let mut changed = true;
        let mut pass: usize = 0;
        while changed && pass < GREEDY_PASS_LIMIT
            invariant
                problem.wf(),
                n == problem.spec_n(),
                k == problem.spec_k(),
                dim == problem.spec_dim(),
                order@.len() == n,
                order@.no_duplicates(),
                forall|i: int| 0 <= i < order@.len() ==> (#[trigger] order@[i]) < n,
                partition.inv(),
                partition.compatible(*problem),
                forall|c: int|
                    0 <= c < k && (#[trigger] partition.spec_clusters()[c]).spec_members().len()
                        >= 1 ==> is_centroid(
                        problem.spec_data(),
                        partition.spec_clusters()[c].spec_members(),
                        partition.spec_clusters()[c].spec_centroid(),
                        dim as int,
                    ),
                !changed ==> partition.complete() && (partition.spec_valid() ==> forall|e: int|
                    0 <= e < n ==> settled(*problem, partition, e)),
                k == 1 ==> pass <= 1 || !changed,
                k == 1 && pass >= 1 ==> partition.complete(),
            decreases GREEDY_PASS_LIMIT - pass,
        {
            let ghost before_pass = partition;
            proof {
                if k == 1 && pass >= 1 {
                    assert forall|e: int|
                        0 <= e < n implies settled(*problem, partition, e) by {
                        let home = partition.spec_assignment()[e]->Some_0;
                        assert(home < 1);
                        assert forall|c: int| 0 <= c < 1 implies #[trigger] lex_best(
                            *problem,
                            partition,
                            e,
                            home as int,
                            c,
                        ) by {
                            assert(c == home as int);
                        }
                    }
                }
            }
            changed = refine_pass(problem, &mut partition, &order);
            let ghost after_pass = partition;
            let mut c: usize = 0;
            while c < k
                invariant
                    problem.wf(),
                    n == problem.spec_n(),
                    k == problem.spec_k(),
                    dim == problem.spec_dim(),
                    partition.inv(),
                    partition.compatible(*problem),
                    c <= k,
                    partition.spec_assignment() == after_pass.spec_assignment(),
                    forall|t: int|
                        0 <= t < k ==> (#[trigger] partition.spec_clusters()[t]).spec_members()
                            == after_pass.spec_clusters()[t].spec_members(),
                    forall|t: int|
                        c <= t < k ==> (#[trigger] partition.spec_clusters()[t]).spec_centroid()
                            == after_pass.spec_clusters()[t].spec_centroid(),
                    forall|t: int|
                        0 <= t < c && (#[trigger] partition.spec_clusters()[t]).spec_members().len()
                            >= 1 ==> is_centroid(
                            problem.spec_data(),
                            partition.spec_clusters()[t].spec_members(),
                            partition.spec_clusters()[t].spec_centroid(),
                            dim as int,
                        ),
                decreases k - c,
            {
                if partition.get_cluster(c).is_empty() {
                    partition.randomize_centroid_of(c, rng);
                } else {
                    let centroid = problem.calc_centroid(partition.get_cluster(c));
                    partition.set_centroid_of(c, centroid);
                }
                c = c + 1;
            }
            proof {
                if !changed {
                    assert(after_pass == before_pass);
                    assert(partition.complete());
                    if partition.spec_valid() {
                        assert forall|t: int|
                            0 <= t < k implies (#[trigger] partition.spec_clusters()[t]).spec_centroid()
                            == before_pass.spec_clusters()[t].spec_centroid() by {
                            assert(partition.spec_clusters()[t].spec_members()
                                == before_pass.spec_clusters()[t].spec_members());
                            assert(partition.spec_clusters()[t].spec_members().len() >= 1);
                            assert(is_centroid(
                                problem.spec_data(),
                                before_pass.spec_clusters()[t].spec_members(),
                                before_pass.spec_clusters()[t].spec_centroid(),
                                dim as int,
                            ));
                            assert(is_centroid(
                                problem.spec_data(),
                                partition.spec_clusters()[t].spec_members(),
                                partition.spec_clusters()[t].spec_centroid(),
                                dim as int,
                            ));
                            crate::geometry::lemma_centroid_determined(
                                problem.spec_data(),
                                before_pass.spec_clusters()[t].spec_members(),
                                before_pass.spec_clusters()[t].spec_centroid(),
                                partition.spec_clusters()[t].spec_centroid(),
                                dim as int,
                            );
                        }
                        assert forall|e: int|
                            0 <= e < n implies settled(*problem, partition, e) by {
                            assert(settled(*problem, before_pass, e));
                            lemma_settled_congruent(*problem, before_pass, partition, e);
                        }
                    }
                }
            }
            pass = pass + 1;
        }
        if !changed && partition.is_valid() {
            let aggregate = problem.fitness(&partition);
            let infeasibility = problem.calc_infeasiblity(partition.cluster_index());
            let deviation = problem.general_deviation(partition.clusters());
            return Ok((partition, aggregate, infeasibility, deviation));
        }
        proof {
            if k == 1 {
                assert(!changed);
                assert(partition.complete());
                assert(partition.spec_valid()) by {
                    assert(partition.spec_assignment()[0] is Some);
                    let home = partition.spec_assignment()[0]->Some_0;
                    assert(home < 1);
                    assert(partition.spec_clusters()[0].spec_members().contains(0usize));
                    let w = choose|w: int|
                        0 <= w < partition.spec_clusters()[0].spec_members().len()
                            && partition.spec_clusters()[0].spec_members()[w] == 0usize;
                    assert forall|t: int|
                        0 <= t < 1 implies (#[trigger] partition.spec_clusters()[t]).spec_members().len()
                        >= 1 by {}
                }
                assert(false);
            }
        }
        attempt = attempt + 1;
    }
    Err(ConstructionFailed)
}

} // verus!
