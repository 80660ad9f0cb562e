use greyjack::candidate::apply_deltas;
use greyjack::mover::{gather_values, reverse_values, rotate_left_values, write_columns, Mover};
use greyjack::variables::SemanticGroups;
use rand::rngs::SmallRng;
use rand::SeedableRng;
use std::collections::HashSet;

fn seeded(use_tabu: bool, sizes: Vec<usize>, seed: u64) -> Mover {
    Mover::with_rng(use_tabu, sizes, SmallRng::seed_from_u64(seed))
}

fn sorted(mut v: Vec<i64>) -> Vec<i64> {
    v.sort();
    v
}

fn one_group(ids: Vec<usize>) -> SemanticGroups {
    SemanticGroups { semantic_group_keys: vec!["common".to_string()], semantic_groups_ids: vec![ids] }
}

#[test]
fn apply_deltas_writes_in_order() {
    let mut sample = vec![1, 2, 3, 4];
    apply_deltas(&mut sample, &vec![(0, 10), (2, 30), (0, 11)]);
    assert_eq!(sample, vec![11, 2, 30, 4]);
}

#[test]
fn apply_deltas_empty_keeps_sample() {
    let mut sample = vec![5, 6];
    apply_deltas(&mut sample, &Vec::new());
    assert_eq!(sample, vec![5, 6]);
}

#[test]
fn gather_rotate_reverse_write() {
    let candidate = vec![10, 20, 30, 40, 50];
    let cols = vec![4, 0, 2];
    assert_eq!(gather_values(&candidate, &cols), vec![50, 10, 30]);
    assert_eq!(rotate_left_values(&vec![1, 2, 3, 4], 1), vec![2, 3, 4, 1]);
    assert_eq!(rotate_left_values(&vec![1, 2, 3, 4], 3), vec![4, 1, 2, 3]);
    assert_eq!(reverse_values(&vec![1, 2, 3]), vec![3, 2, 1]);
    assert_eq!(write_columns(&candidate, &cols, &vec![1, 2, 3]), vec![2, 20, 3, 40, 1]);
}

#[test]
fn new_mover_has_empty_tabu_lists() {
    let m = Mover::new(true, vec![2, 3]);
    assert_eq!(m.moves_count, 6);
    assert_eq!(m.tabu_ids_vecdeque_map.len(), 2);
    assert!(m.tabu_ids_vecdeque_map.iter().all(|q| q.is_empty()));
    assert!(m.tabu_ids_sets_map.iter().all(|s| s.is_empty()));
}

#[test]
fn change_move_plain_writes_drawn_columns() {
    let mut m = seeded(false, vec![1], 3);
    let candidate: Vec<i64> = vec![0; 6];
    let group_ids = vec![1, 3, 5];
    let value_of = |i: usize| (i as i64) * 100;
    let (changed, cols, deltas) = m.change_move(&candidate, &group_ids, 0, 2, &value_of, false);
    let cols = cols.unwrap();
    assert!(deltas.is_none());
    assert_eq!(cols.len(), 2);
    assert_ne!(cols[0], cols[1]);
    assert!(cols.iter().all(|c| group_ids.contains(c)));
    let changed = changed.unwrap();
    for j in 0..6 {
        if cols.contains(&j) {
            assert_eq!(changed[j], (j as i64) * 100);
        } else {
            assert_eq!(changed[j], 0);
        }
    }
}

#[test]
fn change_move_on_small_group_gives_nothing() {
    let mut m = seeded(false, vec![1], 3);
    let value_of = |i: usize| i as i64;
    let r = m.change_move(&vec![0i64; 4], &vec![1], 0, 3, &value_of, true);
    assert_eq!(r, (None, None, None));
}

#[test]
fn change_move_with_tabu_pushes_ids() {
    let mut m = seeded(true, vec![4], 11);
    let value_of = |_i: usize| 7i64;
    let (_, cols, deltas) = m.change_move(&vec![0i64; 5], &vec![0, 1, 2, 3, 4], 0, 2, &value_of, true);
    let cols = cols.unwrap();
    assert_eq!(deltas.unwrap(), vec![7, 7]);
    let queue: Vec<usize> = m.tabu_ids_vecdeque_map[0].iter().cloned().collect();
    assert_eq!(queue.len(), 2);
    let set: HashSet<usize> = m.tabu_ids_sets_map[0].iter().cloned().collect();
    assert_eq!(set.len(), 2);
    for c in &cols {
        assert!(set.contains(c));
    }
}

#[test]
fn tabu_list_never_exceeds_its_size() {
    let mut m = seeded(true, vec![3], 5);
    let value_of = |_i: usize| 1i64;
    for _ in 0..20 {
        let _ = m.change_move(&vec![0i64; 8], &vec![0, 1, 2, 3, 4, 5, 6, 7], 0, 2, &value_of, true);
        assert!(m.tabu_ids_vecdeque_map[0].len() <= 3);
        let set: HashSet<usize> = m.tabu_ids_vecdeque_map[0].iter().cloned().collect();
        assert_eq!(set.len(), m.tabu_ids_vecdeque_map[0].len());
        assert_eq!(m.tabu_ids_sets_map[0].len(), m.tabu_ids_vecdeque_map[0].len());
    }
}

#[test]
fn swap_move_plain_is_permutation_and_incremental_matches() {
    let candidate: Vec<i64> = vec![10, 11, 12, 13, 14, 15];
    let group_ids = vec![0, 2, 4, 5];
    let mut a = seeded(false, vec![1], 21);
    let mut b = seeded(false, vec![1], 21);
    let (plain, cols_p, _) = a.swap_move(&candidate, &group_ids, 0, 3, false);
    let (_, cols_i, deltas) = b.swap_move(&candidate, &group_ids, 0, 3, true);
    let plain = plain.unwrap();
    let cols_i = cols_i.unwrap();
    assert_eq!(cols_p.unwrap(), cols_i);
    assert_eq!(sorted(plain.clone()), sorted(candidate.clone()));
    let mut applied = candidate.clone();
    let pairs: Vec<(usize, i64)> = cols_i.iter().cloned().zip(deltas.unwrap().into_iter()).collect();
    apply_deltas(&mut applied, &pairs);
    assert_eq!(applied, plain);
    // column cols[i] takes the value of cols[i + 1]
    for i in 0..cols_i.len() {
        let next = cols_i[(i + 1) % cols_i.len()];
        assert_eq!(plain[cols_i[i]], candidate[next]);
    }
}

#[test]
fn insertion_move_rotates_a_run() {
    let candidate: Vec<i64> = vec![0, 1, 2, 3, 4, 5, 6];
    let groups = one_group(vec![0, 1, 2, 3, 4, 5, 6]);
    let mut m = seeded(false, vec![1], 8);
    let (plain, cols, _) = m.insertion_move(&candidate, &groups, false);
    let plain = plain.unwrap();
    let cols = cols.unwrap();
    assert!(cols.len() >= 2);
    for w in cols.windows(2) {
        assert_eq!(w[1], w[0] + 1);
    }
    for i in 0..cols.len() {
        assert_eq!(plain[cols[i]], candidate[cols[(i + 1) % cols.len()]]);
    }
    assert_eq!(sorted(plain), sorted(candidate));
}

#[test]
fn inverse_move_reverses_a_run() {
    let candidate: Vec<i64> = vec![5, 6, 7, 8, 9];
    let groups = one_group(vec![0, 1, 2, 3, 4]);
    let mut m = seeded(false, vec![1], 9);
    let (plain, cols, _) = m.inverse_move(&candidate, &groups, false);
    let plain = plain.unwrap();
    let cols = cols.unwrap();
    let n = cols.len();
    for i in 0..n {
        assert_eq!(plain[cols[i]], candidate[cols[n - 1 - i]]);
    }
}

#[test]
fn moves_on_single_id_groups_give_nothing() {
    let groups = one_group(vec![2]);
    let mut m = seeded(false, vec![1], 1);
    assert_eq!(m.insertion_move(&vec![1i64, 2, 3], &groups, false), (None, None, None));
    assert_eq!(m.inverse_move(&vec![1i64, 2, 3], &groups, true), (None, None, None));
}

#[test]
fn scramble_move_shuffles_a_run() {
    let candidate: Vec<i64> = (0..10).collect();
    let groups = one_group((0..10).collect());
    let mut m = seeded(false, vec![1], 4);
    let (plain, cols, _) = m.scramble_move(&candidate, &groups, false);
    let plain = plain.unwrap();
    let cols = cols.unwrap();
    assert!(cols.len() >= 3 && cols.len() <= 6);
    let mut before: Vec<i64> = cols.iter().map(|&c| candidate[c]).collect();
    let mut after: Vec<i64> = cols.iter().map(|&c| plain[c]).collect();
    before.sort();
    after.sort();
    assert_eq!(before, after);
    for j in 0..10 {
        if !cols.contains(&j) {
            assert_eq!(plain[j], candidate[j]);
        }
    }
}

#[test]
fn scramble_move_on_short_group_gives_nothing() {
    let groups = one_group(vec![0, 1]);
    let mut m = seeded(false, vec![1], 4);
    assert_eq!(m.scramble_move(&vec![1i64, 2], &groups, true), (None, None, None));
}

#[test]
fn swap_edges_move_changes_edge_ends() {
    let candidate: Vec<i64> = vec![100, 101, 102, 103, 104, 105, 106, 107];
    let group_ids: Vec<usize> = (0..8).collect();
    let mut m = seeded(false, vec![1], 13);
    let (plain, cols, deltas) = m.swap_edges_move(&candidate, &group_ids, 0, 2, false);
    assert!(deltas.is_none());
    let plain = plain.unwrap();
    let cols = cols.unwrap();
    let set: HashSet<usize> = cols.iter().cloned().collect();
    assert_eq!(set.len(), cols.len());
    assert!(cols.len() >= 3 && cols.len() <= 4);
    for j in 0..8 {
        if !set.contains(&j) {
            assert_eq!(plain[j], candidate[j]);
        }
    }
}

#[test]
fn swap_edges_move_on_empty_group_gives_nothing() {
    let mut m = seeded(false, vec![1], 13);
    assert_eq!(m.swap_edges_move(&vec![1i64], &Vec::new(), 0, 2, true), (None, None, None));
}

#[test]
fn swap_edges_incremental_values_come_from_edge_ends() {
    let candidate: Vec<i64> = vec![100, 101, 102, 103, 104, 105, 106, 107];
    let group_ids: Vec<usize> = (0..8).collect();
    let mut m = seeded(false, vec![1], 17);
    let (_, cols, deltas) = m.swap_edges_move(&candidate, &group_ids, 0, 3, true);
    let cols = cols.unwrap();
    let deltas = deltas.unwrap();
    assert_eq!(cols.len(), deltas.len());
    for d in &deltas {
        assert!(cols.iter().any(|&c| candidate[c] == *d));
    }
}

#[test]
fn non_tabu_count_counts_free_ids() {
    let mut m = seeded(true, vec![2], 2);
    assert_eq!(m.non_tabu_count(0, 5), 5);
    let value_of = |_i: usize| 0i64;
    let _ = m.change_move(&vec![0i64; 5], &vec![0, 1, 2, 3, 4], 0, 2, &value_of, true);
    assert_eq!(m.non_tabu_count(0, 5), 3);
}

#[test]
fn applying_distinct_deltas_equals_writing_them() {
    let candidate = vec![1, 2, 3, 4, 5];
    let cols = vec![3, 0, 4];
    let vals = vec![30, 10, 50];
    let mut applied = candidate.clone();
    let pairs: Vec<(usize, i32)> = cols.iter().cloned().zip(vals.iter().cloned()).collect();
    apply_deltas(&mut applied, &pairs);
    assert_eq!(applied, write_columns(&candidate, &cols, &vals));
}

#[test]
fn swap_edges_incremental_matches_plain_on_disjoint_edges() {
    let candidate: Vec<i64> = (0..12).map(|x| 100 + x).collect();
    let group_ids: Vec<usize> = (0..12).collect();
    let mut checked = 0;
    for seed in 0..200u64 {
        let mut a = seeded(false, vec![1], seed);
        let mut b = seeded(false, vec![1], seed);
        let (plain, cols_p, _) = a.swap_edges_move(&candidate, &group_ids, 0, 3, false);
        let (_, cols_i, deltas) = b.swap_edges_move(&candidate, &group_ids, 0, 3, true);
        let cols_i = cols_i.unwrap();
        assert_eq!(cols_p.unwrap().len(), cols_i.len());
        if cols_i.len() == 6 {
            let mut applied = candidate.clone();
            let pairs: Vec<(usize, i64)> = cols_i.iter().cloned().zip(deltas.unwrap().into_iter()).collect();
            apply_deltas(&mut applied, &pairs);
            assert_eq!(applied, plain.unwrap());
            checked += 1;
        }
    }
    assert!(checked > 0);
}

#[test]
fn consecutive_tabu_moves_draw_disjoint_columns() {
    let value_of = |_i: usize| 0i64;
    let group_ids: Vec<usize> = (0..10).collect();
    for seed in 0..20u64 {
        let mut m = seeded(true, vec![3], seed);
        let (_, first, _) = m.change_move(&vec![0i64; 10], &group_ids, 0, 3, &value_of, true);
        let (_, second, _) = m.change_move(&vec![0i64; 10], &group_ids, 0, 3, &value_of, true);
        let first = first.unwrap();
        for c in second.unwrap() {
            assert!(!first.contains(&c));
        }
    }
}

fn shift_in_place(candidate: &Vec<i64>, cols: &Vec<usize>) -> Vec<i64> {
    let mut c = candidate.clone();
    if !cols.is_empty() {
        let first = c[cols[0]];
        for i in 0..cols.len() - 1 {
            c[cols[i]] = c[cols[i + 1]];
        }
        c[cols[cols.len() - 1]] = first;
    }
    c
}

#[test]
fn write_columns_later_write_wins() {
    let candidate = vec![1, 2, 3];
    assert_eq!(write_columns(&candidate, &vec![0, 2, 0], &vec![7, 8, 9]), vec![9, 2, 8]);
}

#[test]
fn swap_move_with_repeated_group_ids_shifts_in_place() {
    let candidate: Vec<i64> = vec![10, 20, 30];
    let group_ids = vec![2, 0, 2];
    for seed in 0..20 {
        let mut m = seeded(false, vec![1], seed);
        let (plain, cols, deltas) = m.swap_move(&candidate, &group_ids, 0, 3, false);
        let cols = cols.unwrap();
        assert!(deltas.is_none());
        assert_eq!(plain.unwrap(), shift_in_place(&candidate, &cols));
    }
}

#[test]
fn insertion_move_with_repeated_group_ids_shifts_in_place() {
    let candidate: Vec<i64> = vec![10, 20, 30, 40];
    let groups = one_group(vec![1, 0, 1, 3]);
    for seed in 0..20 {
        let mut m = seeded(false, vec![1], seed);
        let (plain, cols, _) = m.insertion_move(&candidate, &groups, false);
        let cols = cols.unwrap();
        assert_eq!(plain.unwrap(), shift_in_place(&candidate, &cols));
    }
}

#[test]
fn inverse_move_with_repeated_group_ids_writes_in_order() {
    let candidate: Vec<i64> = vec![10, 20, 30];
    let groups = one_group(vec![0, 1, 0]);
    for seed in 0..20 {
        let mut m = seeded(false, vec![1], seed);
        let (plain, cols, _) = m.inverse_move(&candidate, &groups, false);
        let cols = cols.unwrap();
        let mut expected = candidate.clone();
        let reversed: Vec<i64> = cols.iter().rev().map(|&c| candidate[c]).collect();
        for (i, &c) in cols.iter().enumerate() {
            expected[c] = reversed[i];
        }
        assert_eq!(plain.unwrap(), expected);
    }
}

#[test]
fn mover_select_non_tabu_ids_avoids_and_records_tabu() {
    let mut m = seeded(true, vec![2], 5);
    let first = m.select_non_tabu_ids(0, 2, 4);
    assert_eq!(first.len(), 2);
    assert_ne!(first[0], first[1]);
    assert!(first.iter().all(|&i| i < 4));
    let queue: Vec<usize> = m.tabu_ids_vecdeque_map[0].iter().copied().collect();
    assert_eq!(queue, vec![first[1], first[0]]);
    let second = m.select_non_tabu_ids(0, 2, 4);
    assert!(second.iter().all(|i| !first.contains(i)));
    let queue: Vec<usize> = m.tabu_ids_vecdeque_map[0].iter().copied().collect();
    assert_eq!(queue, vec![second[1], second[0]]);
}

#[test]
fn swap_edges_move_plain_keeps_values_on_disjoint_edges() {
    let candidate: Vec<i64> = (0..10).map(|x| x * 10).collect();
    let group_ids: Vec<usize> = (0..10).collect();
    for seed in 0..20 {
        let mut m = seeded(false, vec![1], seed);
        let (plain, cols, _) = m.swap_edges_move(&candidate, &group_ids, 0, 2, false);
        let plain = plain.unwrap();
        assert!(cols.is_some());
        let changed: Vec<usize> = (0..10).filter(|&j| plain[j] != candidate[j]).collect();
        assert!(changed.iter().all(|c| cols.as_ref().unwrap().contains(c)));
        if cols.unwrap().len() == 4 {
            assert_eq!(sorted(plain.clone()), sorted(candidate.clone()));
        }
    }
}
