use par::problem::{Constraint, ConstraintKind, Problem, ProblemError};
use par::cluster::Cluster;
use par::partition::Partition;
use par::rng::RandomSource;
use par::UNIT;

fn pt(x: u64, y: u64) -> Vec<u64> {
    vec![x, y]
}

fn must(a: usize, b: usize) -> Constraint {
    Constraint { a, b, kind: ConstraintKind::MustLink }
}

fn cannot(a: usize, b: usize) -> Constraint {
    Constraint { a, b, kind: ConstraintKind::CannotLink }
}

/// Six points in two obvious groups, one must-link pair inside each group
/// and one cannot-link pair across the groups.
fn two_group_points() -> Vec<Vec<u64>> {
    vec![
        pt(0, 0),
        pt(0, UNIT),
        pt(UNIT, 0),
        pt(10 * UNIT, 10 * UNIT),
        pt(10 * UNIT, 11 * UNIT),
        pt(11 * UNIT, 10 * UNIT),
    ]
}

fn two_group_constraints() -> Vec<Constraint> {
    vec![must(0, 1), must(3, 4), cannot(0, 3)]
}

fn two_group_problem() -> Problem {
    Problem::new(two_group_points(), two_group_constraints(), 2).unwrap()
}

#[test]
fn distance_is_exact_symmetric_and_zero_on_self() {
    let points = vec![pt(0, 0), pt(3 * UNIT, 4 * UNIT)];
    let problem = Problem::new(points, vec![must(0, 1)], 1).unwrap();
    assert_eq!(problem.distance(0, 1), 5 * UNIT);
    assert_eq!(problem.distance(1, 0), 5 * UNIT);
    assert_eq!(problem.distance(0, 0), 0);
    assert_eq!(problem.distance(1, 1), 0);
}

#[test]
fn lambda_is_max_distance_over_constraint_count() {
    let problem = two_group_problem();
    // Largest pairwise distance: (0,0) to (11,10), floor(sqrt(221) * 10^6),
    // divided by the three declared constraints.
    assert_eq!(problem.lambda(), 14_866_068 / 3);
    assert_eq!(problem.lambda(), 4_955_356);
}

#[test]
fn construction_rejects_zero_constraints() {
    let r = Problem::new(two_group_points(), vec![], 2);
    assert_eq!(r.unwrap_err(), ProblemError::DegenerateInstance);
}

#[test]
fn construction_rejects_bad_cluster_counts() {
    let r = Problem::new(two_group_points(), two_group_constraints(), 0);
    assert_eq!(r.unwrap_err(), ProblemError::DegenerateInstance);
    let r = Problem::new(two_group_points(), two_group_constraints(), 7);
    assert_eq!(r.unwrap_err(), ProblemError::DegenerateInstance);
}

#[test]
fn construction_rejects_empty_data() {
    let r = Problem::new(vec![], vec![], 1);
    assert_eq!(r.unwrap_err(), ProblemError::DegenerateInstance);
}

#[test]
fn construction_rejects_inconsistent_rows() {
    let points = vec![pt(0, 0), vec![UNIT], pt(UNIT, UNIT)];
    let r = Problem::new(points, vec![must(0, 1)], 1);
    assert_eq!(r.unwrap_err(), ProblemError::MalformedInput);
}

#[test]
fn construction_rejects_misordered_or_dangling_pairs() {
    let r = Problem::new(two_group_points(), vec![must(1, 0)], 2);
    assert_eq!(r.unwrap_err(), ProblemError::MalformedInput);
    let r = Problem::new(two_group_points(), vec![must(0, 6)], 2);
    assert_eq!(r.unwrap_err(), ProblemError::MalformedInput);
    let r = Problem::new(two_group_points(), vec![must(2, 2)], 2);
    assert_eq!(r.unwrap_err(), ProblemError::MalformedInput);
}

#[test]
fn construction_rejects_duplicate_pairs() {
    let r = Problem::new(two_group_points(), vec![must(0, 1), cannot(0, 1)], 2);
    assert_eq!(r.unwrap_err(), ProblemError::MalformedInput);
}

#[test]
fn accessors_expose_instance_data() {
    let problem = two_group_problem();
    assert_eq!(problem.len(), 6);
    assert_eq!(problem.k(), 2);
    assert_eq!(problem.data(4), &pt(10 * UNIT, 11 * UNIT));
    assert_eq!(problem.get_data(), two_group_points());
}

#[test]
fn inf_insert_counts_only_new_violations() {
    let problem = two_group_problem();
    // Element 0 unassigned yet; 1 sits in cluster 0, 3 sits in cluster 1.
    let assignment = vec![None, Some(0), None, Some(1), None, None];
    // Joining cluster 0 keeps the must-link 0-1 and the cannot-link 0-3 happy.
    assert_eq!(problem.inf_insert(0, 0, &assignment), 0);
    // Joining cluster 1 breaks the must-link 0-1 and the cannot-link 0-3.
    assert_eq!(problem.inf_insert(0, 1, &assignment), 2);
    // Unassigned neighbours contribute nothing.
    assert_eq!(problem.inf_insert(4, 0, &assignment), 1);
    assert_eq!(problem.inf_insert(4, 1, &assignment), 0);
}

#[test]
fn total_infeasibility_counts_each_pair_once() {
    let problem = two_group_problem();
    // Both must-link pairs split, cannot-link pair joined: all three violated.
    let worst = vec![Some(0), Some(1), Some(0), Some(0), Some(1), Some(1)];
    assert_eq!(problem.calc_infeasiblity(&worst), 3);
    // The natural grouping violates nothing.
    let natural = vec![Some(0), Some(0), Some(0), Some(1), Some(1), Some(1)];
    assert_eq!(problem.calc_infeasiblity(&natural), 0);
}

#[test]
fn total_infeasibility_ignores_constraint_list_order() {
    let reordered = vec![cannot(0, 3), must(3, 4), must(0, 1)];
    let p1 = two_group_problem();
    let p2 = Problem::new(two_group_points(), reordered, 2).unwrap();
    for assignment in [
        vec![Some(0), Some(1), Some(0), Some(0), Some(1), Some(1)],
        vec![Some(0), Some(0), Some(1), Some(1), Some(1), Some(0)],
        vec![Some(1), Some(1), Some(1), Some(0), Some(0), Some(0)],
    ] {
        assert_eq!(p1.calc_infeasiblity(&assignment), p2.calc_infeasiblity(&assignment));
    }
}

#[test]
fn centroid_is_componentwise_floor_mean() {
    let problem = two_group_problem();
    let mut cluster = Cluster::new(2);
    cluster.insert(0);
    cluster.insert(1);
    cluster.insert(2);
    let centroid = problem.calc_centroid(&cluster);
    assert_eq!(centroid, vec![333_333, 333_333]);
}

#[test]
fn centroid_recompute_is_idempotent() {
    let problem = two_group_problem();
    let mut cluster = Cluster::new(2);
    cluster.insert(3);
    cluster.insert(4);
    cluster.insert(5);
    let first = problem.calc_centroid(&cluster);
    cluster.set_centroid(first.clone());
    let second = problem.calc_centroid(&cluster);
    assert_eq!(first, second);
    assert_eq!(cluster.centroid(), &second);
}

#[test]
fn intra_cluster_distance_is_floor_mean_of_distances() {
    let problem = two_group_problem();
    let mut cluster = Cluster::new(2);
    cluster.insert(0);
    cluster.insert(1);
    cluster.insert(2);
    let centroid = problem.calc_centroid(&cluster);
    cluster.set_centroid(centroid);
    assert_eq!(problem.intra_cluster_distance(&cluster), 654_038);
}

#[test]
fn intra_cluster_distance_of_singleton_is_zero() {
    let problem = two_group_problem();
    let mut cluster = Cluster::new(2);
    cluster.insert(0);
    cluster.set_centroid(vec![UNIT, UNIT]);
    assert_eq!(problem.intra_cluster_distance(&cluster), 0);
}

#[test]
fn general_deviation_is_mean_over_clusters() {
    let problem = two_group_problem();
    let mut first = Cluster::new(2);
    first.insert(0);
    first.insert(1);
    first.insert(2);
    let c = problem.calc_centroid(&first);
    first.set_centroid(c);
    let mut second = Cluster::new(2);
    second.insert(3);
    second.insert(4);
    second.insert(5);
    let c = problem.calc_centroid(&second);
    second.set_centroid(c);
    let clusters = vec![first, second];
    assert_eq!(problem.general_deviation(&clusters), 654_038);
}

#[test]
fn cluster_insert_and_update_refreshes_the_centroid() {
    let problem = two_group_problem();
    let mut cluster = Cluster::new(2);
    cluster.insert_and_update(3, &problem);
    assert_eq!(cluster.centroid(), &pt(10 * UNIT, 10 * UNIT));
    cluster.insert_and_update(4, &problem);
    assert_eq!(cluster.centroid(), &pt(10 * UNIT, (21 * UNIT) / 2));
    // Re-inserting a present element changes nothing.
    assert!(!cluster.insert_and_update(4, &problem));
    assert_eq!(cluster.centroid(), &pt(10 * UNIT, (21 * UNIT) / 2));
}

#[test]
fn fitness_is_deviation_plus_weighted_infeasibility() {
    let problem = two_group_problem();
    let mut rng = RandomSource::from_seed(9);
    let partition = Partition::new_rand(&problem, &mut rng);
    let deviation = problem.general_deviation(partition.clusters());
    let infeasibility = problem.calc_infeasiblity(partition.cluster_index());
    let expected = deviation as u128 + (problem.lambda() as u128) * (infeasibility as u128);
    assert_eq!(problem.fitness(&partition), expected);
}
