//! First-improvement hill-climbing over the single-element-move
//! neighborhood.
//!
//! A neighbour moves one element to another cluster without emptying its
//! source cluster. The neighborhood is scanned in a freshly shuffled order;
//! the first strictly better neighbour is adopted and the scan restarts.
//! Fitness strictly decreases at every adoption, so the search terminates.

use vstd::prelude::*;
use crate::partition::{
    lemma_neighbour_fitness_determined, neighbour_shape, spec_fitness, Partition,
};
use crate::problem::{count_violations, spec_deviation, Problem};
use crate::rng::RandomSource;
use crate::SIZE_LIMIT;

verus! {

/// The element of an encoded move `element * k + cluster`.
pub open spec fn move_element(p: Partition, code: u64) -> int {
    code as int / p.spec_k()
}

/// The destination cluster of an encoded move.
pub open spec fn move_cluster(p: Partition, code: u64) -> int {
    code as int % p.spec_k()
}

/// A virtual neighbour of `p`: moving the encoded element to the encoded
/// cluster changes its assignment and leaves its source cluster nonempty.
pub open spec fn valid_move(p: Partition, code: u64) -> bool {
    &&& 0 <= move_element(p, code) < p.spec_n()
    &&& 0 <= move_cluster(p, code) < p.spec_k()
    &&& p.spec_assignment()[move_element(p, code)] is Some
    &&& p.spec_assignment()[move_element(p, code)] != Some(move_cluster(p, code) as usize)
    &&& p.spec_clusters()[p.spec_assignment()[move_element(p, code)]->Some_0 as int].spec_members().len()
        > 1
}

/// Enumerates the virtual neighborhood of a partition as encoded moves:
/// exactly the valid moves, each encoded once.
fn gen_neighbourhood(partition: &Partition) -> (r: Vec<u64>)
    requires
        partition.inv(),
        partition.complete(),
        partition.spec_n() <= SIZE_LIMIT,
        partition.spec_k() <= partition.spec_n(),
    ensures
        forall|i: int| 0 <= i < r@.len() ==> valid_move(*partition, #[trigger] r@[i]),
        forall|code: u64| #[trigger] valid_move(*partition, code) ==> r@.contains(code),
        r@.no_duplicates(),
{
    let n = partition.problem_size();
    let k = partition.k();
    let mut moves: Vec<u64> = Vec::new();
    let mut e: usize = 0;
    while e < n
        invariant
            partition.inv(),
            partition.complete(),
            n == partition.spec_n(),
            k == partition.spec_k(),
            n <= SIZE_LIMIT,
            k <= n,
            e <= n,
            forall|i: int| 0 <= i < moves@.len() ==> valid_move(*partition, #[trigger] moves@[i]),
            forall|code: u64|
                #[trigger] valid_move(*partition, code) && move_element(*partition, code) < e
                    ==> moves@.contains(code),
            forall|i: int| 0 <= i < moves@.len() ==> (#[trigger] moves@[i]) < e * k,
            moves@.no_duplicates(),
        decreases n - e,
    {
        let home = match partition.get_cluster_index_for(e) {
            Some(c) => c,
            None => {
                proof {
                    assert(false);
                }
                0
            },
        };
        let home_size = partition.get_cluster(home).len();
        if home_size != 1 {
            proof {
                assert(partition.spec_clusters()[home as int].spec_members().len() >= 1) by {
                    assert(partition.spec_clusters()[home as int].spec_members().contains(e));
                    let t = choose|t: int|
                        0 <= t < partition.spec_clusters()[home as int].spec_members().len()
                            && partition.spec_clusters()[home as int].spec_members()[t] == e;
                }
            }
            let mut c: usize = 0;
            while c < k
                invariant
                    partition.inv(),
                    partition.complete(),
                    n == partition.spec_n(),
                    k == partition.spec_k(),
                    n <= SIZE_LIMIT,
                    k <= n,
                    e < n,
                    c <= k,
                    partition.spec_assignment()[e as int] == Some(home),
                    partition.spec_clusters()[home as int].spec_members().len() > 1,
                    forall|i: int|
                        0 <= i < moves@.len() ==> valid_move(*partition, #[trigger] moves@[i]),
                    forall|code: u64|
                        #[trigger] valid_move(*partition, code) && move_element(*partition, code)
                            < e ==> moves@.contains(code),
                    forall|code: u64|
                        #[trigger] valid_move(*partition, code) && move_element(*partition, code)
                            == e && move_cluster(*partition, code) < c ==> moves@.contains(code),
                    forall|i: int| 0 <= i < moves@.len() ==> (#[trigger] moves@[i]) < e * k + c,
                    moves@.no_duplicates(),
                decreases k - c,
            {
                if c != home {
                    proof {
                        assert((e as int) * (k as int) + (c as int) < 0x1000_0000_0000_0000)
                            by (nonlinear_arith)
                            requires
                                0 <= e < n,
                                0 <= c < k,
                                k <= n,
                                n <= SIZE_LIMIT,
                                SIZE_LIMIT == 0x4000_0000,
                        ;
                    }
                    let code: u64 = (e as u64) * (k as u64) + (c as u64);
                    proof {
                        vstd::arithmetic::div_mod::lemma_fundamental_div_mod_converse(
                            code as int,
                            k as int,
                            e as int,
                            c as int,
                        );
                    }
                    let ghost pre = moves@;
                    moves.push(code);
                    proof {
                        assert(moves@.no_duplicates()) by {
                            assert(forall|i: int|
                                0 <= i < pre.len() ==> (#[trigger] pre[i]) < code);
                            assert(forall|i: int|
                                0 <= i < moves@.len() - 1 ==> #[trigger] moves@[i] == pre[i]);
                            assert(moves@[moves@.len() - 1] == code);
                        }
                        assert forall|code2: u64|
                            #[trigger] valid_move(*partition, code2) && (move_element(
                                *partition,
                                code2,
                            ) < e || (move_element(*partition, code2) == e && move_cluster(
                                *partition,
                                code2,
                            ) <= c)) implies moves@.contains(code2) by {
                            if move_element(*partition, code2) == e && move_cluster(
                                *partition,
                                code2,
                            ) == c {
                                vstd::arithmetic::div_mod::lemma_fundamental_div_mod(
                                    code2 as int,
                                    k as int,
                                );
                                assert(code2 as int == (k as int) * (code2 as int / (k as int))
                                    + (code2 as int) % (k as int));
                                assert(code2 as int / (k as int) == e as int);
                                assert((code2 as int) % (k as int) == c as int);
                                assert((k as int) * (e as int) == (e as int) * (k as int))
                                    by (nonlinear_arith);
                                assert(code2 == code);
                                assert(moves@[moves@.len() - 1] == code);
                            } else {
                                assert(pre.contains(code2));
                                let w = choose|w: int| 0 <= w < pre.len() && pre[w] == code2;
                                assert(moves@[w] == code2);
                            }
                        }
                    }
                } else {
                    proof {
                        assert forall|code2: u64|
                            #[trigger] valid_move(*partition, code2) && move_element(
                                *partition,
                                code2,
                            ) == e && move_cluster(*partition, code2) == c
                            implies moves@.contains(code2) by {
                            assert(partition.spec_assignment()[e as int] == Some(
                                (c as int) as usize,
                            ));
                        }
                    }
                }
                c = c + 1;
            }
        } else {
            proof {
                assert forall|code2: u64|
                    #[trigger] valid_move(*partition, code2) && move_element(*partition, code2)
                        == e implies moves@.contains(code2) by {
                    assert(partition.spec_assignment()[e as int] == Some(home));
                    assert(partition.spec_clusters()[home as int].spec_members().len() == 1);
                }
            }
        }
        proof {
            assert((e + 1) * (k as int) == e * (k as int) + (k as int)) by (nonlinear_arith);
        }
        e = e + 1;
    }
    moves
}

/// Scans the given moves in order and returns the first neighbour whose
/// fitness is strictly below `fitness`, with its fitness. A `None` answer
/// certifies that no scanned move improves: every partition of any listed
/// move's shape has fitness at least `fitness`.
fn scan_first_improvement(
    problem: &Problem,
    current: &Partition,
    fitness: u128,
    moves: &Vec<u64>,
    ) -> (r: Option<(Partition, u128)>)
    requires
        problem.wf(),
        current.inv(),
        current.compatible(*problem),
        current.complete(),
        current.spec_valid(),
        fitness as int == spec_fitness(*problem, *current),
        forall|i: int| 0 <= i < moves@.len() ==> valid_move(*current, #[trigger] moves@[i]),
    ensures
        r matches Some(out) ==> {
            &&& out.0.inv()
            &&& out.0.compatible(*problem)
            &&& out.0.complete()
            &&& out.0.spec_valid()
            &&& out.0.cache_ok(*problem)
            &&& out.1 as int == spec_fitness(*problem, out.0)
            &&& out.1 < fitness
        },
        r is None ==> forall|t: int, np: Partition|
            0 <= t < moves@.len() && #[trigger] neighbour_shape(
                *problem,
                *current,
                move_element(*current, moves@[t]),
                move_cluster(*current, moves@[t]),
                np,
            ) ==> spec_fitness(*problem, np) >= fitness as int,
{
    let count = moves.len();
    let mut i: usize = 0;
    while i < count
        invariant
            problem.wf(),
            current.inv(),
            current.compatible(*problem),
            current.complete(),
            current.spec_valid(),
            fitness as int == spec_fitness(*problem, *current),
            count == moves@.len(),
            i <= count,
            forall|t: int| 0 <= t < moves@.len() ==> valid_move(*current, #[trigger] moves@[t]),
            forall|t: int, np: Partition|
                0 <= t < i && #[trigger] neighbour_shape(
                    *problem,
                    *current,
                    move_element(*current, moves@[t]),
                    move_cluster(*current, moves@[t]),
                    np,
                ) ==> spec_fitness(*problem, np) >= fitness as int,
        decreases count - i,
    {
        let code = moves[i];
        let n = current.problem_size();
        let k = current.k();
        let element = (code / (k as u64)) as usize;
        let cluster = (code % (k as u64)) as usize;
        proof {
            assert(valid_move(*current, code));
        }
        let neighbour = current.gen_neighbour(element, cluster, problem);
        match neighbour {
            Some(mut valid) => {
                let valid_fitness = valid.fitness(problem);
                if valid_fitness < fitness {
                    return Some((valid, valid_fitness));
                }
                proof {
                    let ghost seen = valid;
                    assert(neighbour_shape(
                        *problem,
                        *current,
                        element as int,
                        cluster as int,
                        seen,
                    ));
                    assert forall|t: int, np: Partition|
                        0 <= t < i + 1 && #[trigger] neighbour_shape(
                            *problem,
                            *current,
                            move_element(*current, moves@[t]),
                            move_cluster(*current, moves@[t]),
                            np,
                        ) implies spec_fitness(*problem, np) >= fitness as int by {
                        if t == i {
                            lemma_neighbour_fitness_determined(
                                *problem,
                                *current,
                                element as int,
                                cluster as int,
                                np,
                                seen,
                            );
                        }
                    }
                }
            },
            None => {
                proof {
                    assert(false);
                }
            },
        }
        i = i + 1;
    }
    None
}

/// Local search from a given valid starting partition. Fitness strictly
/// decreases at every adopted neighbour, so the result is never worse than
/// the start; and the result is a local optimum: no valid single move
/// reaches a partition of strictly lower fitness.
pub fn local_search_from(problem: &Problem, start: Partition, rng: &mut RandomSource) -> (r: (
    Partition,
    u128,
    usize,
    u64,
))
    requires
        problem.wf(),
        start.inv(),
        start.compatible(*problem),
        start.complete(),
        start.spec_valid(),
        start.cache_ok(*problem),
    ensures
        r.0.inv(),
        r.0.compatible(*problem),
        r.0.complete(),
        r.0.spec_valid(),
        r.1 as int == spec_fitness(*problem, r.0),
        r.1 as int <= spec_fitness(*problem, start),
        r.2 as int == count_violations(problem.spec_constraints(), r.0.spec_assignment()),
        r.3 as int == spec_deviation(problem.spec_data(), r.0.spec_clusters()),
        forall|code: u64, np: Partition|
            valid_move(r.0, code) && #[trigger] neighbour_shape(
                *problem,
                r.0,
                move_element(r.0, code),
                move_cluster(r.0, code),
                np,
            ) ==> spec_fitness(*problem, np) >= r.1 as int,
{
    let ghost start0 = start;
    let mut current = start;
    let mut current_fitness = current.fitness(problem);
    loop
        invariant_except_break
            problem.wf(),
            current.inv(),
            current.compatible(*problem),
            current.complete(),
            current.spec_valid(),
            current.cache_ok(*problem),
            current_fitness as int == spec_fitness(*problem, current),
            current_fitness as int <= spec_fitness(*problem, start0),
        ensures
            current.inv(),
            current.compatible(*problem),
            current.complete(),
            current.spec_valid(),
            current.cache_ok(*problem),
            current_fitness as int == spec_fitness(*problem, current),
            current_fitness as int <= spec_fitness(*problem, start0),
            forall|code: u64, np: Partition|
                valid_move(current, code) && #[trigger] neighbour_shape(
                    *problem,
                    current,
                    move_element(current, code),
                    move_cluster(current, code),
                    np,
                ) ==> spec_fitness(*problem, np) >= current_fitness as int,
        decreases current_fitness,
    {
        let mut moves = gen_neighbourhood(&current);
        let ghost before = moves@;
        rng.shuffle(&mut moves);
        proof {
            broadcast use vstd::seq_lib::group_to_multiset_ensures;

            assert forall|i: int|
                0 <= i < moves@.len() implies valid_move(current, #[trigger] moves@[i]) by {
                let x = moves@[i];
                assert(moves@.contains(x));
                assert(moves@.to_multiset().count(x) > 0);
                assert(before.to_multiset().count(x) > 0);
                assert(before.contains(x));
                let w = choose|w: int| 0 <= w < before.len() && before[w] == x;
                assert(valid_move(current, before[w]));
            }
            assert forall|code: u64|
                #[trigger] valid_move(current, code) implies moves@.contains(code) by {
                assert(before.contains(code));
                assert(before.to_multiset().count(code) > 0);
                assert(moves@.to_multiset().count(code) > 0);
            }
        }
        match scan_first_improvement(problem, &current, current_fitness, &moves) {
            Some(adopted) => {
                current = adopted.0;
                current_fitness = adopted.1;
            },
            None => {
                proof {
                    assert forall|code: u64, np: Partition|
                        valid_move(current, code) && #[trigger] neighbour_shape(
                            *problem,
                            current,
                            move_element(current, code),
                            move_cluster(current, code),
                            np,
                        ) implies spec_fitness(*problem, np) >= current_fitness as int by {
                        assert(moves@.contains(code));
                        let t = choose|t: int| 0 <= t < moves@.len() && moves@[t] == code;
                        assert(neighbour_shape(
                            *problem,
                            current,
                            move_element(current, moves@[t]),
                            move_cluster(current, moves@[t]),
                            np,
                        ));
                    }
                }
                break ;
            },
        }
    }
    let infeasibility = problem.calc_infeasiblity(current.cluster_index());
    let deviation = problem.general_deviation(current.clusters());
    (current, current_fitness, infeasibility, deviation)
}

/// Local search from a fresh random valid partition. The result is a local
/// optimum of the single-move neighborhood.
pub fn local_search(problem: &Problem, rng: &mut RandomSource) -> (r: (Partition, u128, usize, u64))
    requires
        problem.wf(),
    ensures
        r.0.inv(),
        r.0.compatible(*problem),
        r.0.complete(),
        r.0.spec_valid(),
        r.1 as int == spec_fitness(*problem, r.0),
        r.2 as int == count_violations(problem.spec_constraints(), r.0.spec_assignment()),
        r.3 as int == spec_deviation(problem.spec_data(), r.0.spec_clusters()),
        forall|code: u64, np: Partition|
            valid_move(r.0, code) && #[trigger] neighbour_shape(
                *problem,
                r.0,
                move_element(r.0, code),
                move_cluster(r.0, code),
                np,
            ) ==> spec_fitness(*problem, np) >= r.1 as int,
{
    let first_partition = Partition::new_rand(problem, rng);
    local_search_from(problem, first_partition, rng)
}

} // verus!
