// The unit-square fixture: towns at (0,0), (0,1), (1,1), (1,0), with
// distances scaled by 1000 so that a unit hop is 1000 and a diagonal hop
// is 1414. The best open path walks the perimeter: fitness 3000.

use tsp_ga::crossover::crossover_with_cuts;
use tsp_ga::crossover::pairwise_crossover;
use tsp_ga::engine::EngineError;
use tsp_ga::engine::Solver;
use tsp_ga::mutation::mutate;
use tsp_ga::mutation::reverse_segment;
use tsp_ga::population::generate_population;
use tsp_ga::population::population_capacity;
use tsp_ga::population::population_contains;
use tsp_ga::selection::rank_and_truncate;
use tsp_ga::selection::update_best;
use tsp_ga::towns::TownSet;

fn unit_square() -> TownSet {
    let d = vec![
        vec![0, 1000, 1414, 1000],
        vec![1000, 0, 1000, 1414],
        vec![1414, 1000, 0, 1000],
        vec![1000, 1414, 1000, 0],
    ];
    TownSet::new(d).expect("the unit-square matrix is valid")
}

fn two_towns() -> TownSet {
    let d = vec![vec![0, 1000], vec![1000, 0]];
    TownSet::new(d).expect("the two-town matrix is valid")
}

fn is_permutation(t: &Vec<usize>, n: usize) -> bool {
    if t.len() != n {
        return false;
    }
    let mut seen = vec![false; n];
    for &x in t {
        if x >= n || seen[x] {
            return false;
        }
        seen[x] = true;
    }
    true
}

#[test]
fn distances_come_back_as_given() {
    let ts = unit_square();
    assert_eq!(ts.town_count(), 4);
    assert_eq!(ts.distance(0, 2), 1414);
    assert_eq!(ts.distance(2, 0), 1414);
    assert_eq!(ts.distance(3, 3), 0);
}

#[test]
fn fitness_of_perimeter_tour() {
    let ts = unit_square();
    assert_eq!(ts.member_fitness(&vec![0, 1, 2, 3]), 3000);
}

#[test]
fn fitness_of_crossing_tour() {
    let ts = unit_square();
    assert_eq!(ts.member_fitness(&vec![0, 2, 1, 3]), 1414 + 1000 + 1414);
}

#[test]
fn fitness_of_single_town_is_zero() {
    let ts = TownSet::new(vec![vec![0]]).expect("a single town is valid");
    assert_eq!(ts.member_fitness(&vec![0]), 0);
}

#[test]
fn fitness_is_positive_for_two_towns() {
    let ts = two_towns();
    assert!(ts.member_fitness(&vec![0, 1]) > 0);
    assert!(ts.member_fitness(&vec![1, 0]) > 0);
}

#[test]
fn town_set_rejects_non_square_matrix() {
    assert!(TownSet::new(vec![vec![0, 1], vec![1, 0, 2]]).is_none());
}

#[test]
fn town_set_rejects_asymmetric_matrix() {
    assert!(TownSet::new(vec![vec![0, 1], vec![2, 0]]).is_none());
}

#[test]
fn town_set_rejects_nonzero_diagonal() {
    assert!(TownSet::new(vec![vec![5, 1], vec![1, 0]]).is_none());
}

#[test]
fn town_set_rejects_empty_matrix() {
    assert!(TownSet::new(vec![]).is_none());
}

#[test]
fn town_set_rejects_oversized_distance() {
    let big = 0x1_0000_0000u64;
    assert!(TownSet::new(vec![vec![0, big], vec![big, 0]]).is_none());
}

#[test]
fn crossover_copies_segment_then_fills_cyclically() {
    let p1 = vec![2usize, 0, 1, 3];
    let p2 = vec![3usize, 1, 0, 2];
    // segment [1, 3) of p1 is [0, 1]; p2 read cyclically from 3 is
    // [2, 3, 1, 0], of which 2 and 3 are new
    let child = crossover_with_cuts(&p1, &p2, 1, 3);
    assert_eq!(child, vec![0, 1, 2, 3]);
}

#[test]
fn crossover_with_equal_cuts_rotates_second_parent() {
    let p1 = vec![0usize, 1, 2, 3];
    let p2 = vec![3usize, 1, 0, 2];
    // an empty copied segment: the child is p2 reordered from the cut
    let child = crossover_with_cuts(&p1, &p2, 2, 2);
    assert_eq!(child, vec![0, 2, 3, 1]);
}

#[test]
fn crossover_with_full_segment_copies_first_parent() {
    let p1 = vec![3usize, 2, 1, 0];
    let p2 = vec![0usize, 1, 2, 3];
    let child = crossover_with_cuts(&p1, &p2, 0, 4);
    assert_eq!(child, vec![3, 2, 1, 0]);
}

#[test]
fn random_crossover_always_yields_permutation() {
    let p1 = vec![4usize, 2, 0, 3, 1, 5];
    let p2 = vec![5usize, 0, 3, 1, 4, 2];
    for _ in 0..200 {
        let child = pairwise_crossover(&p1, &p2);
        assert!(is_permutation(&child, 6));
    }
}

#[test]
fn reverse_segment_inverts_the_sub_range() {
    let t = vec![0usize, 1, 2, 3, 4];
    assert_eq!(reverse_segment(&t, 1, 4), vec![0, 3, 2, 1, 4]);
    assert_eq!(reverse_segment(&t, 0, 5), vec![4, 3, 2, 1, 0]);
    assert_eq!(reverse_segment(&t, 2, 2), vec![0, 1, 2, 3, 4]);
}

#[test]
fn mutation_always_yields_permutation() {
    let t = vec![3usize, 1, 4, 0, 2, 5, 6];
    for _ in 0..200 {
        let m = mutate(&t);
        assert!(is_permutation(&m, 7));
    }
}

#[test]
fn mutation_of_single_town_tour_is_identity() {
    assert_eq!(mutate(&vec![0usize]), vec![0]);
}

#[test]
fn capacity_is_estimate_for_small_town_counts() {
    assert_eq!(population_capacity(2, 100), 1);
    assert_eq!(population_capacity(3, 100), 2);
    assert_eq!(population_capacity(4, 100), 6);
    assert_eq!(population_capacity(5, 100), 24);
}

#[test]
fn capacity_is_target_for_large_town_counts() {
    assert_eq!(population_capacity(6, 100), 100);
    assert_eq!(population_capacity(50, 100), 100);
    assert_eq!(population_capacity(10, 1), 1);
}

#[test]
fn initial_population_is_distinct_permutations() {
    let (pop, exhausted) = generate_population(10, 20);
    assert!(!exhausted);
    assert_eq!(pop.len(), 20);
    for (i, member) in pop.iter().enumerate() {
        assert!(is_permutation(member, 10));
        for other in pop.iter().skip(i + 1) {
            assert_ne!(member, other);
        }
    }
}

#[test]
fn initial_population_is_capped_by_estimate() {
    let (pop, exhausted) = generate_population(4, 100);
    assert!(!exhausted);
    assert_eq!(pop.len(), 6);
    for (i, member) in pop.iter().enumerate() {
        assert!(is_permutation(member, 4));
        for other in pop.iter().skip(i + 1) {
            assert_ne!(member, other);
        }
    }
}

#[test]
fn population_contains_finds_structural_duplicates() {
    let pop = vec![vec![0usize, 1, 2], vec![2usize, 1, 0]];
    assert!(population_contains(&pop, &vec![2, 1, 0]));
    assert!(!population_contains(&pop, &vec![1, 0, 2]));
}

#[test]
fn ranking_keeps_the_best_ascending() {
    let scores = vec![(0usize, 50u64), (1, 10), (2, 30)];
    assert_eq!(rank_and_truncate(&scores, 2), vec![(1, 10), (2, 30)]);
    assert_eq!(rank_and_truncate(&scores, 10), vec![(1, 10), (2, 30), (0, 50)]);
}

#[test]
fn best_so_far_never_worsens() {
    let first = update_best(None, &vec![0, 1], 500);
    assert_eq!(first, ((vec![0, 1], 500), true));
    let better = update_best(Some((vec![0, 1], 500)), &vec![1, 0], 400);
    assert_eq!(better, ((vec![1, 0], 400), true));
    let worse = update_best(Some((vec![1, 0], 400)), &vec![0, 1], 450);
    assert_eq!(worse, ((vec![1, 0], 400), false));
    let tie = update_best(Some((vec![1, 0], 400)), &vec![0, 1], 400);
    assert_eq!(tie, ((vec![1, 0], 400), false));
}

#[test]
fn engine_finds_the_perimeter_path_on_the_unit_square() {
    let (mut solver, seed_short) = Solver::new(unit_square(), 100);
    assert!(!seed_short);
    let (result, _) = solver.solve(500, 50_000);
    let (best, fitness) = result.expect("four towns can breed");
    assert!(is_permutation(&best, 4));
    assert!(fitness <= 3000);
}

#[test]
fn engine_population_stays_distinct_permutations() {
    let (mut solver, _) = Solver::new(unit_square(), 100);
    let (result, _) = solver.solve(50, 1_000);
    result.expect("four towns can breed");
    let n = solver.population_len();
    assert!(n >= 1);
    for i in 0..n {
        assert!(is_permutation(solver.member(i), 4));
        for j in (i + 1)..n {
            assert_ne!(solver.member(i), solver.member(j));
        }
    }
}

#[test]
fn refill_leaves_a_full_population_full() {
    let (mut solver, _) = Solver::new(unit_square(), 100);
    // the initial population already stands at its target size
    let before = solver.population_len();
    assert_eq!(solver.refill_to_target(), Ok(true));
    assert_eq!(solver.population_len(), before);
}

#[test]
fn refill_on_singleton_population_signals_fatal_error() {
    // two towns admit a single distinct tour up to the estimate, so the
    // population has one member and cannot breed
    let (mut solver, _) = Solver::new(two_towns(), 100);
    assert_eq!(solver.population_len(), 1);
    assert_eq!(solver.refill_to_target(), Err(EngineError::PopulationTooSmall));
}

#[test]
fn solve_on_singleton_population_signals_fatal_error() {
    let (mut solver, _) = Solver::new(two_towns(), 100);
    let (result, _) = solver.solve(50, 100);
    assert_eq!(result, Err(EngineError::PopulationTooSmall));
}
