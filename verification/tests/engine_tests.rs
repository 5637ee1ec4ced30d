use par::genetic::{generational_genetic, one_generation};
use par::geometry::point_distance;
use par::greedy::greedy;
use par::local_search::{local_search, local_search_from};
use par::partition::Partition;
use par::problem::{Constraint, ConstraintKind, Problem};
use par::rng::RandomSource;
use par::UNIT;

fn scenario_problem() -> Problem {
    let points = vec![
        vec![0, 0],
        vec![0, UNIT],
        vec![UNIT, 0],
        vec![10 * UNIT, 10 * UNIT],
        vec![10 * UNIT, 11 * UNIT],
        vec![11 * UNIT, 10 * UNIT],
    ];
    let constraints = vec![
        Constraint { a: 0, b: 1, kind: ConstraintKind::MustLink },
        Constraint { a: 3, b: 4, kind: ConstraintKind::MustLink },
        Constraint { a: 0, b: 3, kind: ConstraintKind::CannotLink },
    ];
    Problem::new(points, constraints, 2).unwrap()
}

/// A complete partition with every element in cluster 0 except the last.
fn lopsided_partition(problem: &Problem, rng: &mut RandomSource) -> Partition {
    let mut p = Partition::new(problem.k(), 2, problem.len(), rng);
    for e in 0..problem.len() - 1 {
        p.insert(e, 0);
    }
    p.insert(problem.len() - 1, 1);
    p
}

#[test]
fn insert_keeps_assignment_and_membership_in_step() {
    let problem = scenario_problem();
    let mut rng = RandomSource::from_seed(1);
    let mut p = Partition::new(2, 2, 6, &mut rng);
    assert_eq!(p.get_cluster_index_for(0), None);
    p.insert(0, 0);
    assert_eq!(p.get_cluster_index_for(0), Some(0));
    assert!(p.get_cluster(0).contains(0));
    assert!(!p.get_cluster(1).contains(0));
    p.insert(0, 1);
    assert_eq!(p.get_cluster_index_for(0), Some(1));
    assert!(!p.get_cluster(0).contains(0));
    assert!(p.get_cluster(1).contains(0));
    assert_eq!(p.problem_size(), problem.len());
    assert_eq!(p.k(), 2);
}

#[test]
fn fitness_cache_always_equals_fresh_recomputation() {
    let problem = scenario_problem();
    let mut rng = RandomSource::from_seed(2);
    let mut p = Partition::new_rand(&problem, &mut rng);
    let fresh = problem.fitness(&p);
    assert_eq!(p.fitness(&problem), fresh);
    // A second read comes from the cache and must agree too.
    assert_eq!(p.fitness(&problem), fresh);
    // A mutation invalidates the cache; the next read is fresh again.
    let home = p.get_cluster_index_for(0).unwrap();
    let other = 1 - home;
    if p.get_cluster(home).len() > 1 {
        p.insert(0, other);
        let fresh = problem.fitness(&p);
        assert_eq!(p.fitness(&problem), fresh);
    }
}

#[test]
fn gen_neighbour_refuses_to_empty_the_source_cluster() {
    let problem = scenario_problem();
    let mut rng = RandomSource::from_seed(3);
    let p = lopsided_partition(&problem, &mut rng);
    // Element 5 is the only member of cluster 1: moving it away is refused.
    assert!(p.gen_neighbour(5, 0, &problem).is_none());
    // Moving an element out of the large cluster is allowed.
    let neighbour = p.gen_neighbour(0, 1, &problem).unwrap();
    assert_eq!(neighbour.get_cluster_index_for(0), Some(1));
    assert!(neighbour.get_cluster(1).contains(0));
    assert!(neighbour.is_valid());
    // The starting partition is untouched.
    assert_eq!(p.get_cluster_index_for(0), Some(0));
}

#[test]
fn repair_fills_every_empty_cluster() {
    let problem = scenario_problem();
    let mut rng = RandomSource::from_seed(4);
    let mut p = Partition::new(2, 2, 6, &mut rng);
    for e in 0..6 {
        p.insert(e, 0);
    }
    assert!(!p.is_valid());
    p.repair(&mut rng);
    assert!(p.is_valid());
    assert!(p.is_complete());
}

#[test]
fn new_rand_returns_valid_complete_partitions() {
    let problem = scenario_problem();
    for seed in [1u64, 2, 3] {
        let mut rng = RandomSource::from_seed(seed);
        let p = Partition::new_rand(&problem, &mut rng);
        assert!(p.is_valid());
        assert!(p.is_complete());
    }
}

#[test]
fn seeded_runs_are_reproducible() {
    let problem = scenario_problem();
    let mut rng1 = RandomSource::from_seed(11);
    let mut rng2 = RandomSource::from_seed(11);
    let p1 = Partition::new_rand(&problem, &mut rng1);
    let p2 = Partition::new_rand(&problem, &mut rng2);
    assert!(p1.same_assignment(&p2));
    let r1 = local_search(&problem, &mut rng1);
    let r2 = local_search(&problem, &mut rng2);
    assert!(r1.0.same_assignment(&r2.0));
    assert_eq!(r1.1, r2.1);
}

#[test]
fn different_seeds_explore_differently() {
    let problem = scenario_problem();
    let mut rng2 = RandomSource::from_seed(2);
    let mut rng3 = RandomSource::from_seed(3);
    let r2 = local_search(&problem, &mut rng2);
    let r3 = local_search(&problem, &mut rng3);
    assert!(!r2.0.same_assignment(&r3.0));
}

#[test]
fn partition_equality_compares_assignments_only() {
    let problem = scenario_problem();
    let mut rng = RandomSource::from_seed(8);
    let mut p1 = Partition::new(2, 2, 6, &mut rng);
    let mut p2 = Partition::new(2, 2, 6, &mut rng);
    // Different random centroids, same assignments: equal partitions.
    for e in 0..6 {
        p1.insert(e, e % 2);
        p2.insert(e, e % 2);
    }
    assert!(p1 == p2);
    p2.insert(0, 1);
    assert!(p1 != p2);
}

#[test]
fn randomized_centroids_stay_inside_the_unit_box() {
    let mut rng = RandomSource::from_seed(5);
    let p = Partition::new(3, 4, 6, &mut rng);
    for c in 0..3 {
        let centroid = p.get_cluster(c).centroid();
        assert_eq!(centroid.len(), 4);
        for &coordinate in centroid.iter() {
            assert!(coordinate < UNIT);
        }
    }
}

#[test]
fn greedy_converges_on_the_two_group_scenario() {
    let problem = scenario_problem();
    for seed in [1u64, 2, 3] {
        let mut rng = RandomSource::from_seed(seed);
        let (partition, aggregate, infeasibility, deviation) =
            greedy(&problem, &mut rng).unwrap();
        assert!(partition.is_valid());
        assert!(partition.is_complete());
        assert_eq!(infeasibility, 0);
        assert!(deviation < UNIT);
        assert_eq!(aggregate, deviation as u128);
    }
}

#[test]
fn greedy_result_is_a_fixed_point() {
    let problem = scenario_problem();
    for seed in [1u64, 2, 3] {
        let mut rng = RandomSource::from_seed(seed);
        let (partition, _, _, _) = greedy(&problem, &mut rng).unwrap();
        // Every element already sits in the cluster with the least
        // infeasibility increment, ties broken by nearest centroid, then by
        // lowest index: no single reassignment is preferable.
        for e in 0..problem.len() {
            let home = partition.get_cluster_index_for(e).unwrap();
            let home_delta = problem.inf_insert(e, home, partition.cluster_index());
            let home_gap = point_distance(problem.data(e), partition.get_cluster(home).centroid());
            for c in 0..problem.k() {
                let delta = problem.inf_insert(e, c, partition.cluster_index());
                let gap = point_distance(problem.data(e), partition.get_cluster(c).centroid());
                assert!(
                    home_delta < delta
                        || (home_delta == delta && (home_gap < gap || (home_gap == gap && home <= c)))
                );
            }
        }
    }
}

#[test]
fn local_search_settles_on_the_two_group_scenario() {
    let problem = scenario_problem();
    // Seeds 2 and 3 reach zero infeasibility; seed 1 ends in a local
    // optimum with one violation, where the only member of one cluster may
    // not leave it (the move would empty its source cluster).
    let expected_infeasibility = [1usize, 0, 0];
    for (seed, expected) in [1u64, 2, 3].into_iter().zip(expected_infeasibility) {
        let mut rng = RandomSource::from_seed(seed);
        let (partition, aggregate, infeasibility, deviation) = local_search(&problem, &mut rng);
        assert!(partition.is_valid());
        assert!(partition.is_complete());
        assert_eq!(infeasibility, expected);
        assert_eq!(
            aggregate,
            deviation as u128 + (problem.lambda() as u128) * (infeasibility as u128)
        );
    }
}

#[test]
fn genetic_settles_on_the_two_group_scenario() {
    let problem = scenario_problem();
    // Seeds 2 and 3 reach zero infeasibility; seed 1 ends with a single
    // violation surviving the generation budget.
    let expected_infeasibility = [1usize, 0, 0];
    for (seed, expected) in [1u64, 2, 3].into_iter().zip(expected_infeasibility) {
        let mut rng = RandomSource::from_seed(seed);
        let (partition, aggregate, infeasibility, deviation) =
            generational_genetic(&problem, 10, &mut rng);
        assert!(partition.is_valid());
        assert!(partition.is_complete());
        assert_eq!(infeasibility, expected);
        assert_eq!(
            aggregate,
            deviation as u128 + (problem.lambda() as u128) * (infeasibility as u128)
        );
    }
}

#[test]
fn local_search_never_returns_worse_than_its_start() {
    let problem = scenario_problem();
    for seed in [1u64, 2, 3] {
        let mut rng = RandomSource::from_seed(seed);
        let start = Partition::new_rand(&problem, &mut rng);
        let start_fitness = problem.fitness(&start);
        let (_, fitness, _, _) = local_search_from(&problem, start, &mut rng);
        assert!(fitness <= start_fitness);
    }
}

fn population_min_fitness(problem: &Problem, population: &[Partition]) -> u128 {
    population.iter().map(|p| problem.fitness(p)).min().unwrap()
}

#[test]
fn elitism_keeps_the_best_fitness_from_regressing() {
    let problem = scenario_problem();
    let mut rng = RandomSource::from_seed(6);
    let mut population = Partition::random_population(&problem, 10, &mut rng);
    for _ in 0..5 {
        let next = one_generation(&problem, &mut population, 3, 1, &mut rng);
        // `population` is now the mutated previous generation, whose best
        // individual elitism protects.
        let previous_best = population_min_fitness(&problem, &population);
        let new_best = population_min_fitness(&problem, &next);
        assert!(new_best <= previous_best);
        population = next;
    }
}
