//! Generational genetic search: binary tournament selection, uniform
//! crossover over half the genes, single-gene mutation, and elitist
//! replacement, for a fixed budget of generations.
//!
//! Elitism keeps each generation's best from regressing: when the best of
//! the previous population is absent (by assignment) from the new one, it
//! replaces the new population's worst individual.

use vstd::prelude::*;
use crate::partition::{
    congruent, lemma_fitness_congruent, repaired_assignment, spec_fitness, Partition,
};
use crate::problem::{count_violations, spec_deviation, Problem};
use crate::rng::RandomSource;

verus! {

/// The fixed generation budget.
pub const GENERATIONS: usize = 100;

/// Every individual of a population is a consistent, complete, valid
/// partition of the problem.
pub open spec fn pop_ok(prob: Problem, pop: Seq<Partition>) -> bool {
    forall|i: int|
        0 <= i < pop.len() ==> (#[trigger] pop[i]).inv() && pop[i].compatible(prob)
            && pop[i].complete() && pop[i].spec_valid() && pop[i].cache_ok(prob)
}

/// The least fitness over a nonempty population.
pub open spec fn min_fitness(prob: Problem, pop: Seq<Partition>) -> int
    decreases pop.len(),
{
    if pop.len() <= 1 {
        spec_fitness(prob, pop[0])
    } else {
        let rest = min_fitness(prob, pop.drop_last());
        let last = spec_fitness(prob, pop.last());
        if last < rest {
            last
        } else {
            rest
        }
    }
}

/// The least fitness bounds every individual's fitness and is attained.
pub proof fn lemma_min_fitness(prob: Problem, pop: Seq<Partition>)
    requires
        pop.len() >= 1,
    ensures
        forall|i: int|
            0 <= i < pop.len() ==> min_fitness(prob, pop) <= spec_fitness(
                prob,
                #[trigger] pop[i],
            ),
        exists|i: int|
            0 <= i < pop.len() && min_fitness(prob, pop) == spec_fitness(
                prob,
                #[trigger] pop[i],
            ),
    decreases pop.len(),
{
    if pop.len() == 1 {
        assert(min_fitness(prob, pop) == spec_fitness(prob, pop[0]));
    } else {
        let d = pop.drop_last();
        lemma_min_fitness(prob, d);
        assert(pop.last() == pop[pop.len() - 1]);
        assert forall|i: int|
            0 <= i < pop.len() implies min_fitness(prob, pop) <= spec_fitness(
            prob,
            #[trigger] pop[i],
        ) by {
            if i < pop.len() - 1 {
                assert(d[i] == pop[i]);
                assert(min_fitness(prob, d) <= spec_fitness(prob, d[i]));
            }
        }
        if min_fitness(prob, pop) == spec_fitness(prob, pop.last()) {
            assert(0 <= pop.len() - 1 < pop.len() && min_fitness(prob, pop) == spec_fitness(
                prob,
                pop[pop.len() - 1],
            ));
        } else {
            let w = choose|i: int|
                0 <= i < d.len() && min_fitness(prob, d) == spec_fitness(prob, #[trigger] d[i]);
            assert(d[w] == pop[w]);
            assert(0 <= w < pop.len() && min_fitness(prob, pop) == spec_fitness(prob, pop[w]));
        }
    }
}

/// The assignment taking `a2`'s value on the elements of `s` and `a1`'s
/// value elsewhere.
pub open spec fn mix_of(a1: Seq<Option<usize>>, a2: Seq<Option<usize>>, s: Set<int>) -> Seq<
    Option<usize>,
> {
    Seq::new(a1.len(), |e: int| if s.contains(e) { a2[e] } else { a1[e] })
}

/// `post` is `pre` with one gene reassigned to a different cluster below
/// `k`, followed at most by a repair; centroids are untouched.
pub open spec fn mutated_from(k: int, pre: Partition, post: Partition) -> bool {
    &&& exists|g: int, c: int|
        0 <= g < pre.spec_n() && 0 <= c < k && pre.spec_assignment()[g] != Some(c as usize)
            && #[trigger] repaired_assignment(
            pre.spec_assignment().update(g, Some(c as usize)),
            post.spec_assignment(),
        )
    &&& post.spec_clusters().len() == pre.spec_clusters().len()
    &&& forall|t: int|
        0 <= t < pre.spec_clusters().len() ==> (#[trigger] post.spec_clusters()[t]).spec_centroid()
            == pre.spec_clusters()[t].spec_centroid()
}

/// Selects the fitter of two partitions (lower fitness wins; ties keep the
/// first) and returns a copy of it.
fn best(p1: &Partition, p2: &Partition, problem: &Problem) -> (r: Partition)
    requires
        problem.wf(),
        p1.inv() && p1.compatible(*problem) && p1.complete() && p1.spec_valid(),
        p2.inv() && p2.compatible(*problem) && p2.complete() && p2.spec_valid(),
    ensures
        r.inv() && r.compatible(*problem) && r.complete() && r.spec_valid() && r.cache_ok(
            *problem,
        ),
        spec_fitness(*problem, *p1) <= spec_fitness(*problem, *p2) ==> congruent(r, *p1),
        spec_fitness(*problem, *p1) > spec_fitness(*problem, *p2) ==> congruent(r, *p2),
        spec_fitness(*problem, r) == spec_fitness(*problem, *p1) || spec_fitness(*problem, r)
            == spec_fitness(*problem, *p2),
{
    let f1 = problem.fitness(p1);
    let f2 = problem.fitness(p2);
    let r = if f1 <= f2 {
        p1.duplicate()
    } else {
        p2.duplicate()
    };
    proof {
        if f1 <= f2 {
            lemma_fitness_congruent(*problem, r, *p1);
        } else {
            lemma_fitness_congruent(*problem, r, *p2);
        }
    }
    r
}

/// Uniform crossover: the child starts as a copy of `p1` and takes `p2`'s
/// assignment on a random half of the elements (a shuffled selection of
/// `n/2` distinct gene indices); an invalid child is repaired afterwards.
fn uniform_crossover(
    p1: &Partition,
    p2: &Partition,
    problem: &Problem,
    rng: &mut RandomSource,
) -> (r: Partition)
    requires
        problem.wf(),
        p1.inv() && p1.compatible(*problem) && p1.complete() && p1.spec_valid(),
        p2.inv() && p2.compatible(*problem) && p2.complete() && p2.spec_valid(),
    ensures
        r.inv() && r.compatible(*problem) && r.complete() && r.spec_valid() && r.cache_ok(
            *problem,
        ),
        exists|s: Set<int>|
            s.finite() && s.len() == p1.spec_n() / 2 && (forall|e: int|
                #[trigger] s.contains(e) ==> 0 <= e < p1.spec_n()) && repaired_assignment(
                mix_of(p1.spec_assignment(), p2.spec_assignment(), s),
                r.spec_assignment(),
            ),
        forall|t: int|
            0 <= t < p1.spec_k() ==> (#[trigger] r.spec_clusters()[t]).spec_centroid()
                == p1.spec_clusters()[t].spec_centroid(),
{
    let total_elements = p1.problem_size();
    let genes = rng.shuffled_indices(total_elements);
    let half = total_elements / 2;
    let mut child = p1.duplicate();
    let ghost mut gset = Set::<int>::empty();
    proof {
        assert(child.spec_assignment() =~= mix_of(
            p1.spec_assignment(),
            p2.spec_assignment(),
            gset,
        ));
    }
    let mut t: usize = 0;
    while t < half
        invariant
            problem.wf(),
            p2.inv() && p2.compatible(*problem) && p2.complete(),
            p1.spec_n() == total_elements,
            p1.spec_k() == problem.spec_k(),
            child.inv(),
            child.compatible(*problem),
            child.complete(),
            child.spec_saved() is None,
            genes@.len() == total_elements,
            genes@.no_duplicates(),
            total_elements == child.spec_n(),
            half <= total_elements,
            forall|i: int| 0 <= i < genes@.len() ==> (#[trigger] genes@[i]) < total_elements,
            t <= half,
            gset.finite(),
            gset.len() == t,
            forall|e: int|
                #[trigger] gset.contains(e) <==> exists|i: int|
                    0 <= i < t && genes@[i] == e,
            child.spec_assignment() == mix_of(p1.spec_assignment(), p2.spec_assignment(), gset),
            forall|c: int|
                0 <= c < child.spec_k() ==> (#[trigger] child.spec_clusters()[c]).spec_centroid()
                    == p1.spec_clusters()[c].spec_centroid(),
        decreases half - t,
    {
        let element = genes[t] as usize;
        let target = match p2.get_cluster_index_for(element) {
            Some(c) => c,
            None => {
                proof {
                    assert(false);
                }
                0
            },
        };
        proof {
            assert(!gset.contains(element as int)) by {
                if gset.contains(element as int) {
                    let i = choose|i: int| 0 <= i < t && genes@[i] == element as int;
                    assert(genes@[i] == genes@[t as int]);
                }
            }
        }
        child.insert(element, target);
        proof {
            assert forall|e: int|
                0 <= e < child.spec_n() implies (#[trigger] child.spec_assignment()[e])
                is Some by {}
            let next_set = gset.insert(element as int);
            assert(p2.spec_assignment()[element as int] == Some(target));
            assert(child.spec_assignment() =~= mix_of(
                p1.spec_assignment(),
                p2.spec_assignment(),
                next_set,
            ));
            assert forall|e: int| #[trigger] next_set.contains(e) implies exists|i: int|
                0 <= i < t + 1 && genes@[i] == e by {
                if e == element as int {
                    assert(genes@[t as int] == e);
                } else {
                    let i = choose|i: int| 0 <= i < t && genes@[i] == e;
                }
            }
            gset = next_set;
        }
        t = t + 1;
    }
    let ghost mixed = child.spec_assignment();
    if !child.is_valid() {
        child.repair(rng);
    }
    proof {
        assert(repaired_assignment(mixed, child.spec_assignment()));
        assert(gset.finite() && gset.len() == p1.spec_n() / 2 && (forall|e: int|
            #[trigger] gset.contains(e) ==> 0 <= e < p1.spec_n()) && repaired_assignment(
            mix_of(p1.spec_assignment(), p2.spec_assignment(), gset),
            child.spec_assignment(),
        )) by {
            assert forall|e: int| #[trigger] gset.contains(e) implies 0 <= e
                < p1.spec_n() by {
                let i = choose|i: int| 0 <= i < half && genes@[i] == e;
                assert(genes@[i] < total_elements);
            }
        }
    }
    child
}

/// Uniform mutation: a shuffled selection of `mutations` distinct
/// individuals each get one random gene reassigned to a different random
/// cluster; an individual left invalid is repaired. With a single cluster
/// there is no different cluster, and the population is left unchanged.
fn uniform_mutation(
    problem: &Problem,
    population: &mut Vec<Partition>,
    mutations: usize,
    rng: &mut RandomSource,
)
    requires
        problem.wf(),
        pop_ok(*problem, old(population)@),
        mutations <= old(population)@.len(),
        old(population)@.len() >= 1,
    ensures
        pop_ok(*problem, final(population)@),
        final(population)@.len() == old(population)@.len(),
        exists|touched: Set<int>|
            touched.finite() && touched.len() <= mutations && (forall|i: int|
                0 <= i < old(population)@.len() && !touched.contains(i)
                    ==> final(population)@[i] == old(population)@[i]) && (forall|i: int|
                #[trigger] touched.contains(i) ==> 0 <= i < old(population)@.len()
                    && mutated_from(
                    problem.spec_k(),
                    old(population)@[i],
                    final(population)@[i],
                )),
{
    let ghost mut touched = Set::<int>::empty();
    let k = problem.k();
    if k < 2 {
        proof {
            assert(touched.finite() && touched.len() <= mutations && (forall|i: int|
                0 <= i < old(population)@.len() && !touched.contains(i)
                    ==> population@[i] == old(population)@[i]) && (forall|i: int|
                #[trigger] touched.contains(i) ==> 0 <= i < old(population)@.len()
                    && mutated_from(problem.spec_k(), old(population)@[i], population@[i])));
        }
        return ;
    }
    let count = population.len();
    let chromosomes = rng.shuffled_indices(count);
    let mut t: usize = 0;
    while t < mutations
        invariant
            problem.wf(),
            pop_ok(*problem, population@),
            population@.len() == count,
            count == old(population)@.len(),
            k == problem.spec_k(),
            2 <= k,
            mutations <= count,
            chromosomes@.len() == count,
            chromosomes@.no_duplicates(),
            forall|i: int| 0 <= i < count ==> (#[trigger] chromosomes@[i]) < count,
            t <= mutations,
            touched.finite(),
            touched.len() <= t,
            forall|e: int|
                #[trigger] touched.contains(e) ==> exists|i: int|
                    0 <= i < t && chromosomes@[i] == e,
            forall|i: int|
                0 <= i < count && !touched.contains(i) ==> #[trigger] population@[i]
                    == old(population)@[i],
            forall|i: int|
                #[trigger] touched.contains(i) ==> 0 <= i < count && mutated_from(
                    k as int,
                    old(population)@[i],
                    population@[i],
                ),
        decreases mutations - t,
    {
        let idx = chromosomes[t] as usize;
        proof {
            assert(!touched.contains(idx as int)) by {
                if touched.contains(idx as int) {
                    let i = choose|i: int| 0 <= i < t && chromosomes@[i] == idx as int;
                    assert(chromosomes@[i] == chromosomes@[t as int]);
                }
            }
            assert(population@[idx as int] == old(population)@[idx as int]);
        }
        let ghost original = population@[idx as int];
        let mut mutant = population[idx].duplicate();
        let ghost fresh_copy = mutant;
        let n = mutant.problem_size();
        let gene = rng.index_below(n);
        let home = match mutant.get_cluster_index_for(gene) {
            Some(c) => c,
            None => {
                proof {
                    assert(false);
                }
                0
            },
        };
        // Draw uniformly over the clusters other than the current one.
        let drawn = rng.index_below(k - 1);
        let target = if drawn >= home {
            drawn + 1
        } else {
            drawn
        };
        proof {
            assert(home < k);
            assert(target < k);
            assert(original.spec_assignment()[gene as int] == Some(home));
        }
        mutant.insert(gene, target);
        proof {
            assert forall|e: int|
                0 <= e < mutant.spec_n() implies (#[trigger] mutant.spec_assignment()[e])
                is Some by {}
        }
        let ghost after_insert = mutant;
        let ghost mid = mutant.spec_assignment();
        if !mutant.is_valid() {
            mutant.repair(rng);
        }
        proof {
            assert(mid == original.spec_assignment().update(gene as int, Some(target)));
            assert(repaired_assignment(mid, mutant.spec_assignment()));
            assert(mutated_from(k as int, original, mutant)) by {
                let gg: int = gene as int;
                let cc: int = target as int;
                assert(original.spec_assignment()[gg] != Some(cc as usize));
                assert(original.spec_assignment().update(gg, Some(cc as usize))
                    == original.spec_assignment().update(gene as int, Some(target)));
                assert(repaired_assignment(
                    original.spec_assignment().update(gg, Some(cc as usize)),
                    mutant.spec_assignment(),
                ));
                assert(mutant.spec_clusters().len() == original.spec_clusters().len());
                assert forall|tc: int|
                    0 <= tc < original.spec_clusters().len()
                        implies (#[trigger] mutant.spec_clusters()[tc]).spec_centroid()
                        == original.spec_clusters()[tc].spec_centroid() by {
                    assert(fresh_copy.spec_clusters()[tc].spec_centroid()
                        == original.spec_clusters()[tc].spec_centroid());
                    assert(after_insert.spec_clusters()[tc].spec_centroid()
                        == fresh_copy.spec_clusters()[tc].spec_centroid());
                    assert(mutant.spec_clusters()[tc].spec_centroid()
                        == after_insert.spec_clusters()[tc].spec_centroid());
                }
            }
        }
        population.set(idx, mutant);
        proof {
            let next_touched = touched.insert(idx as int);
            assert forall|e: int| #[trigger] next_touched.contains(e) implies exists|i: int|
                0 <= i < t + 1 && chromosomes@[i] == e by {
                if e == idx as int {
                    assert(chromosomes@[t as int] == e);
                } else {
                    let i = choose|i: int| 0 <= i < t && chromosomes@[i] == e;
                }
            }
            touched = next_touched;
        }
        t = t + 1;
    }
}

/// The index of a fittest individual (the first, on ties).
fn population_best_index(problem: &Problem, population: &Vec<Partition>) -> (r: usize)
    requires
        problem.wf(),
        pop_ok(*problem, population@),
        population@.len() >= 1,
    ensures
        r < population@.len(),
        forall|i: int|
            0 <= i < population@.len() ==> spec_fitness(*problem, population@[r as int])
                <= spec_fitness(*problem, #[trigger] population@[i]),
{
    let count = population.len();
    let mut bi: usize = 0;
    let mut bf = problem.fitness(&population[0]);
    let mut i: usize = 1;
    while i < count
        invariant
            problem.wf(),
            pop_ok(*problem, population@),
            count == population@.len(),
            1 <= i <= count,
            bi < i,
            bf as int == spec_fitness(*problem, population@[bi as int]),
            forall|t: int|
                0 <= t < i ==> bf as int <= spec_fitness(*problem, #[trigger] population@[t]),
        decreases count - i,
    {
        let f = problem.fitness(&population[i]);
        if f < bf {
            bi = i;
            bf = f;
        }
        i = i + 1;
    }
    bi
}

/// The index of a least fit individual (the first, on ties).
fn population_worst_index(problem: &Problem, population: &Vec<Partition>) -> (r: usize)
    requires
        problem.wf(),
        pop_ok(*problem, population@),
        population@.len() >= 1,
    ensures
        r < population@.len(),
{
    let count = population.len();
    let mut wi: usize = 0;
    let mut wf = problem.fitness(&population[0]);
    let mut i: usize = 1;
    while i < count
        invariant
            problem.wf(),
            pop_ok(*problem, population@),
            count == population@.len(),
            1 <= i <= count,
            wi < count,
        decreases count - i,
    {
        let f = problem.fitness(&population[i]);
        if f > wf {
            wi = i;
            wf = f;
        }
        i = i + 1;
    }
    wi
}

/// One generation: tournament selection and crossover build the next
/// population from the current one; the current population is then mutated,
/// and its best individual, when absent (by assignment) from the next
/// population, replaces the next population's worst. The next generation's
/// best fitness never regresses behind the mutated current population's
/// best, unless the latter's best survives only as an assignment twin.
pub fn one_generation(
    problem: &Problem,
    population: &mut Vec<Partition>,
    crossovers: usize,
    mutations: usize,
    rng: &mut RandomSource,
) -> (next: Vec<Partition>)
    requires
        problem.wf(),
        pop_ok(*problem, old(population)@),
        old(population)@.len() >= 2,
        old(population)@.len() % 2 == 0,
        mutations <= old(population)@.len(),
    ensures
        pop_ok(*problem, next@),
        next@.len() == old(population)@.len(),
        pop_ok(*problem, final(population)@),
        final(population)@.len() == old(population)@.len(),
        min_fitness(*problem, next@) <= min_fitness(*problem, final(population)@) || exists|
            i: int,
            j: int,
        |
            0 <= i < final(population)@.len() && 0 <= j < next@.len() && spec_fitness(
                *problem,
                final(population)@[i],
            ) == min_fitness(*problem, final(population)@) && (#[trigger] next@[j]).spec_assignment()
                == (#[trigger] final(population)@[i]).spec_assignment(),
{
    let pop_size = population.len();
    // Selection: binary tournaments fill the parent pool.
    let mut parents: Vec<Partition> = Vec::new();
    let mut s: usize = 0;
    while s < pop_size
        invariant
            problem.wf(),
            pop_ok(*problem, population@),
            population@.len() == pop_size,
            pop_size >= 2,
            s <= pop_size,
            parents@.len() == s,
            pop_ok(*problem, parents@),
        decreases pop_size - s,
    {
        let i1 = rng.index_below(pop_size);
        let i2 = rng.index_below(pop_size);
        let winner = best(&population[i1], &population[i2], problem);
        parents.push(winner);
        s = s + 1;
    }
    // Crossover: pairs within the quota produce children, the rest are
    // copied unchanged.
    let mut next: Vec<Partition> = Vec::new();
    let mut m: usize = 0;
    while m < pop_size / 2
        invariant
            problem.wf(),
            pop_ok(*problem, population@),
            population@.len() == pop_size,
            pop_size >= 2,
            pop_size % 2 == 0,
            parents@.len() == pop_size,
            pop_ok(*problem, parents@),
            m <= pop_size / 2,
            next@.len() == 2 * m,
            pop_ok(*problem, next@),
        decreases pop_size / 2 - m,
    {
        let p1 = &parents[2 * m];
        let p2 = &parents[2 * m + 1];
        if m < crossovers {
            let c1 = uniform_crossover(p1, p2, problem, rng);
            let c2 = uniform_crossover(p1, p2, problem, rng);
            next.push(c1);
            next.push(c2);
        } else {
            next.push(p1.duplicate());
            next.push(p2.duplicate());
        }
        m = m + 1;
    }
    // Mutation acts on the current (pre-replacement) population.
    uniform_mutation(problem, population, mutations, rng);
    // Elitist replacement.
    let b = population_best_index(problem, population);
    let previous_best = &population[b];
    let mut present = false;
    let mut j: usize = 0;
    while j < next.len()
        invariant
            next@.len() == pop_size,
            b < population@.len(),
            *previous_best == population@[b as int],
            j <= pop_size,
            present ==> exists|t: int|
                0 <= t < next@.len() && (#[trigger] next@[t]).spec_assignment()
                    == population@[b as int].spec_assignment(),
        decreases next@.len() - j,
    {
        if next[j].same_assignment(previous_best) {
            present = true;
            proof {
                assert(next@[j as int].spec_assignment()
                    == population@[b as int].spec_assignment());
            }
        }
        j = j + 1;
    }
    if !present {
        let w = population_worst_index(problem, &next);
        let elite = population[b].duplicate();
        proof {
            lemma_fitness_congruent(*problem, elite, population@[b as int]);
        }
        next.set(w, elite);
        proof {
            lemma_min_fitness(*problem, next@);
            lemma_min_fitness(*problem, population@);
            assert(min_fitness(*problem, next@) <= spec_fitness(*problem, next@[w as int]));
            assert(spec_fitness(*problem, next@[w as int]) == spec_fitness(
                *problem,
                population@[b as int],
            ));
            assert(spec_fitness(*problem, population@[b as int]) == min_fitness(
                *problem,
                population@,
            )) by {
                let a = choose|i: int|
                    0 <= i < population@.len() && min_fitness(*problem, population@)
                        == spec_fitness(*problem, #[trigger] population@[i]);
                assert(spec_fitness(*problem, population@[b as int]) <= spec_fitness(
                    *problem,
                    population@[a],
                ));
            }
        }
    } else {
        proof {
            lemma_min_fitness(*problem, population@);
            let t = choose|t: int|
                0 <= t < next@.len() && (#[trigger] next@[t]).spec_assignment()
                    == population@[b as int].spec_assignment();
            assert(spec_fitness(*problem, population@[b as int]) == min_fitness(
                *problem,
                population@,
            )) by {
                let a = choose|i: int|
                    0 <= i < population@.len() && min_fitness(*problem, population@)
                        == spec_fitness(*problem, #[trigger] population@[i]);
                assert(spec_fitness(*problem, population@[b as int]) <= spec_fitness(
                    *problem,
                    population@[a],
                ));
            }
        }
    }
    next
}

/// Generational genetic optimizer: evolves a random population for a fixed
/// number of generations and returns the best final individual with its
/// fitness, total infeasibility and general deviation.
pub fn generational_genetic(problem: &Problem, pop_size: u32, rng: &mut RandomSource) -> (r: (
    Partition,
    u128,
    usize,
    u64,
))
    requires
        problem.wf(),
        pop_size >= 2,
        pop_size % 2 == 0,
        pop_size <= 0x10000,
    ensures
        r.0.inv(),
        r.0.compatible(*problem),
        r.0.complete(),
        r.0.spec_valid(),
        r.1 as int == spec_fitness(*problem, r.0),
        r.2 as int == count_violations(problem.spec_constraints(), r.0.spec_assignment()),
        r.3 as int == spec_deviation(problem.spec_data(), r.0.spec_clusters()),
{
    let ps = pop_size as usize;
    // Crossover quota: seven tenths of the parent pairs.
    let crossovers: usize = (7 * (ps / 2)) / 10;
    // Mutation count per generation: a tenth of the elements, rounded,
    // capped by the population size.
    let n = problem.len();
    let tenth = (n + 5) / 10;
    let mutations: usize = if tenth <= ps {
        tenth
    } else {
        ps
    };
    let mut population = Partition::random_population(problem, pop_size, rng);
    let mut g: usize = 0;
    while g < GENERATIONS
        invariant
            problem.wf(),
            pop_ok(*problem, population@),
            population@.len() == ps,
            ps >= 2,
            ps % 2 == 0,
            mutations <= ps,
        decreases GENERATIONS - g,
    {
        let next = one_generation(problem, &mut population, crossovers, mutations, rng);
        population = next;
        g = g + 1;
    }
    let b = population_best_index(problem, &population);
    let winner = population[b].duplicate();
    proof {
        lemma_fitness_congruent(*problem, winner, population@[b as int]);
    }
    let aggregate = problem.fitness(&winner);
    let infeasibility = problem.calc_infeasiblity(winner.cluster_index());
    let deviation = problem.general_deviation(winner.clusters());
    (winner, aggregate, infeasibility, deviation)
}

} // verus!
