use aether::spatial::SpatialHash;
use aether::world::{assign_meals, plan_births, sweep_dead, MAX_POP};

fn all_match(n: usize) -> Vec<Vec<bool>> {
    vec![vec![true; n]; n]
}

#[test]
fn births_pair_lowest_willing_partner() {
    let wants = vec![true, false, true, true, true];
    let dish = vec![1, 1, 1, 2, 1];
    let plans = plan_births(&wants, &dish, &all_match(5));
    // 0 takes 2 (1 does not want a child); 3 is alone in dish 2; 4 has no partner left.
    assert_eq!(plans, vec![(0, Some(2)), (3, None), (4, None)]);
}

#[test]
fn births_respect_the_match_table() {
    let wants = vec![true, true, true];
    let dish = vec![0, 0, 0];
    let mut ok = all_match(3);
    ok[0][1] = false;
    let plans = plan_births(&wants, &dish, &ok);
    assert_eq!(plans, vec![(0, Some(2)), (1, None)]);
}

#[test]
fn births_stop_at_the_population_cap() {
    let n = MAX_POP - 2;
    let wants = vec![true; n];
    let dish = vec![0; n];
    let ok = vec![vec![false; n]; n];
    let plans = plan_births(&wants, &dish, &ok);
    assert_eq!(plans.len(), 2);
    assert_eq!(plans, vec![(0, None), (1, None)]);
}

#[test]
fn no_births_in_an_empty_or_full_table() {
    assert!(plan_births(&vec![], &vec![], &vec![]).is_empty());
    let n = MAX_POP;
    assert!(plan_births(&vec![true; n], &vec![0; n], &all_match(n)).is_empty());
}

#[test]
fn one_particle_feeds_one_mouth() {
    let open = vec![true, true, false, true];
    let dish_of = vec![Some(0), Some(0), Some(0), None];
    let alive = vec![vec![true, true]];
    let reach = vec![vec![true, false], vec![true, false], vec![true, true], vec![]];
    let taken = assign_meals(&open, &dish_of, &alive, &reach);
    // The second mouth only reaches the particle the first one took.
    assert_eq!(taken, vec![(0, 0, 0)]);
}

#[test]
fn mouths_take_the_first_free_particle_in_reach() {
    let open = vec![true, true, true];
    let dish_of = vec![Some(1), Some(1), Some(0)];
    let alive = vec![vec![true], vec![false, true, true]];
    let reach = vec![vec![true, true, true], vec![true, true, true], vec![false]];
    let taken = assign_meals(&open, &dish_of, &alive, &reach);
    assert_eq!(taken, vec![(0, 1, 1), (1, 1, 2)]);
}

#[test]
fn grid_pairs_neighbours_once() {
    let mut grid = SpatialHash::new();
    let cells = vec![(0, 0), (1, 1), (3, 3), (2, 0), (0, 0)];
    grid.clear_and_build(4, 4, &cells);
    let mut pairs = grid.for_each_pair();
    pairs.sort();
    assert_eq!(pairs, vec![(0, 1), (0, 4), (1, 3), (1, 4)]);
}

#[test]
fn grid_visits_cells_row_by_row() {
    let mut grid = SpatialHash::default();
    grid.clear_and_build(3, 1, &[(2, 0), (1, 0), (0, 0)]);
    assert_eq!(grid.for_each_pair(), vec![(1, 2), (0, 1)]);
    grid.clear_and_build(1, 1, &[]);
    assert!(grid.for_each_pair().is_empty());
}

#[test]
fn dead_bodies_are_swapped_out() {
    assert_eq!(sweep_dead(&vec![true, false, true, false, false]), vec![4, 1, 3]);
    assert_eq!(sweep_dead(&vec![false, false]), vec![0, 1]);
    assert_eq!(sweep_dead(&vec![true, true, true]), Vec::<usize>::new());
    assert!(sweep_dead(&vec![]).is_empty());
}
