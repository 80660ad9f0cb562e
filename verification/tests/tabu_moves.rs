use greyjack::tabu_moves::TabuMoves;
use rand::rngs::SmallRng;
use rand::SeedableRng;
use std::collections::HashSet;

fn seeded(use_tabu: bool, sizes: Vec<usize>, seed: u64) -> TabuMoves {
    let mut m = TabuMoves::new(use_tabu, sizes);
    m.rng = SmallRng::seed_from_u64(seed);
    m
}

fn sorted(mut v: Vec<i64>) -> Vec<i64> {
    v.sort();
    v
}

#[test]
fn select_non_tabu_ids_avoids_recent_ids() {
    let mut m = seeded(true, vec![3], 1);
    let first = m.select_non_tabu_ids(0, 3, 6);
    assert_eq!(first.len(), 3);
    let set: HashSet<usize> = first.iter().cloned().collect();
    assert_eq!(set.len(), 3);
    let second = m.select_non_tabu_ids(0, 1, 6);
    assert!(!set.contains(&second[0]));
    assert!(second[0] < 6);
    assert!(m.tabu_ids_vecdeque_map[0].len() <= 3);
    assert_eq!(m.tabu_ids_vecdeque_map[0][0], second[0]);
}

#[test]
fn select_with_tabu_size_zero_keeps_no_list() {
    let mut m = seeded(true, vec![0], 2);
    let ids = m.select_non_tabu_ids(0, 4, 2);
    assert_eq!(ids.len(), 4);
    assert!(ids.iter().all(|&i| i < 2));
    assert!(m.tabu_ids_vecdeque_map[0].is_empty());
    assert!(m.tabu_ids_sets_map[0].is_empty());
}

#[test]
fn change_move_base_without_tabu_uses_group_members() {
    let mut m = seeded(false, vec![1], 3);
    let value_of = |i: usize| (i as i64) + 1000;
    let (plain, cols, deltas) = m.change_move_base(&vec![0i64; 10], &value_of, 2, &vec![7, 8, 9], 0, false);
    assert!(deltas.is_none());
    let cols = cols.unwrap();
    let plain = plain.unwrap();
    assert_eq!(cols.len(), 2);
    for c in &cols {
        assert!([7, 8, 9].contains(c));
        assert_eq!(plain[*c], (*c as i64) + 1000);
    }
}

#[test]
fn change_move_base_on_small_group_gives_nothing() {
    let mut m = seeded(false, vec![1], 3);
    let value_of = |i: usize| i as i64;
    assert_eq!(m.change_move_base(&vec![0i64; 3], &value_of, 5, &vec![0, 1], 0, true), (None, None, None));
}

#[test]
fn swap_move_base_gives_pairwise_deltas() {
    let candidate: Vec<i64> = vec![10, 11, 12, 13, 14];
    let mut m = seeded(false, vec![1], 4);
    let (_, cols, deltas) = m.swap_move_base(&candidate, 3, &vec![0, 1, 2, 3, 4], 0, true);
    let cols = cols.unwrap();
    let deltas = deltas.unwrap();
    assert_eq!(cols.len(), 3);
    assert_eq!(deltas.len(), 4);
    for i in 1..3 {
        assert_eq!(deltas[2 * (i - 1)], candidate[cols[i]]);
        assert_eq!(deltas[2 * (i - 1) + 1], candidate[cols[i - 1]]);
    }
}

#[test]
fn swap_move_base_plain_rotates_distinct_columns() {
    let candidate: Vec<i64> = vec![10, 11, 12, 13, 14];
    let mut m = seeded(false, vec![1], 5);
    let (plain, cols, _) = m.swap_move_base(&candidate, 3, &vec![0, 1, 2, 3, 4], 0, false);
    let plain = plain.unwrap();
    let cols = cols.unwrap();
    for i in 0..cols.len() {
        assert_eq!(plain[cols[i]], candidate[cols[(i + 1) % cols.len()]]);
    }
    assert_eq!(sorted(plain), sorted(candidate));
}

#[test]
fn swap_edges_move_base_lists_edge_ends() {
    let candidate: Vec<i64> = (0..8).map(|x| x * 10).collect();
    let group_ids: Vec<usize> = (0..8).collect();
    let mut m = seeded(false, vec![1], 6);
    let (plain, cols, _) = m.swap_edges_move_base(&candidate, 2, &group_ids, 0, false);
    let cols = cols.unwrap();
    assert_eq!(cols.len(), 4);
    assert_eq!(cols[1], cols[0] + 1);
    assert_eq!(cols[3], cols[2] + 1);
    assert_eq!(sorted(plain.unwrap()), sorted(candidate));
}

#[test]
fn swap_edges_move_base_on_empty_group_gives_nothing() {
    let mut m = seeded(false, vec![1], 6);
    assert_eq!(m.swap_edges_move_base(&vec![1i64], 2, &Vec::new(), 0, false), (None, None, None));
}

#[test]
fn insertion_move_base_rotates_a_run() {
    let candidate: Vec<i64> = vec![5, 6, 7, 8, 9, 10];
    let group_ids: Vec<usize> = (0..6).collect();
    let mut m = seeded(false, vec![1], 7);
    let (_, cols, deltas) = m.insertion_move_base(&candidate, 2, &group_ids, 0, true);
    let cols = cols.unwrap();
    let deltas = deltas.unwrap();
    assert_eq!(cols.len(), deltas.len());
    let values: Vec<i64> = cols.iter().map(|&c| candidate[c]).collect();
    let mut left = values.clone();
    left.rotate_left(1);
    let mut right = values.clone();
    right.rotate_right(1);
    assert!(deltas == left || deltas == right);
}

#[test]
fn insertion_move_base_on_single_id_gives_nothing() {
    let mut m = seeded(false, vec![1], 7);
    assert_eq!(m.insertion_move_base(&vec![1i64, 2], 2, &vec![0], 0, true), (None, None, None));
}

#[test]
fn scramble_move_base_keeps_run_values() {
    let candidate: Vec<i64> = (0..10).map(|x| x * 3).collect();
    let group_ids: Vec<usize> = (0..10).collect();
    let mut m = seeded(false, vec![1], 8);
    let (plain, cols, _) = m.scramble_move_base(&candidate, 4, &group_ids, 0, false);
    let plain = plain.unwrap();
    let cols = cols.unwrap();
    assert_eq!(cols.len(), 4);
    assert_eq!(sorted(plain), sorted(candidate));
}

#[test]
fn scramble_move_base_on_short_group_gives_nothing() {
    let mut m = seeded(false, vec![1], 8);
    assert_eq!(m.scramble_move_base(&vec![1i64; 3], 5, &vec![0, 1], 0, true), (None, None, None));
}

#[test]
fn select_non_tabu_ids_with_large_tabu_size_and_short_list() {
    let mut m = seeded(true, vec![10], 4);
    let ids = m.select_non_tabu_ids(0, 2, 5);
    assert_eq!(ids.len(), 2);
    assert_ne!(ids[0], ids[1]);
    assert!(ids.iter().all(|&i| i < 5));
}
