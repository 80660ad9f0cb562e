use greyjack::entity_index::EntityIndex;

fn index() -> EntityIndex {
    EntityIndex::from_variables(&vec![(10, "a".to_string()), (10, "b".to_string()), (20, "a".to_string())])
}

fn fact_of(index: &EntityIndex, var: usize) -> Option<i64> {
    index.var_idx_to_entity_map.get(&var).map(|e| e.0)
}

fn field_of(index: &EntityIndex, var: usize) -> Option<String> {
    index.var_idx_to_entity_map.get(&var).map(|e| e.1.clone())
}

#[test]
fn from_variables_numbers_variables_in_order() {
    let idx = index();
    assert_eq!(idx.var_idx_to_entity_map.len(), 3);
    assert_eq!(fact_of(&idx, 0), Some(10));
    assert_eq!(field_of(&idx, 1), Some("b".to_string()));
    assert_eq!(fact_of(&idx, 2), Some(20));
    assert_eq!(fact_of(&idx, 3), None);
}

#[test]
fn new_index_is_empty() {
    let idx = EntityIndex::new();
    assert!(idx.var_idx_to_entity_map.is_empty());
}

#[test]
fn group_deltas_groups_by_fact_in_delta_order() {
    let idx = index();
    let deltas: Vec<(usize, f64)> = vec![(0, 1.5), (2, 3.0), (1, 2.0), (7, 9.0), (0, 4.0)];
    let mut groups = idx.group_deltas(&deltas);
    groups.sort_by_key(|g| g.0);
    assert_eq!(groups.len(), 2);
    assert_eq!(groups[0].0, 10);
    assert_eq!(
        groups[0].1,
        vec![("a".to_string(), 1.5), ("b".to_string(), 2.0), ("a".to_string(), 4.0)]
    );
    assert_eq!(groups[1].0, 20);
    assert_eq!(groups[1].1, vec![("a".to_string(), 3.0)]);
}

#[test]
fn group_deltas_of_unknown_variables_is_empty() {
    let idx = index();
    let deltas: Vec<(usize, f64)> = vec![(5, 1.0), (6, 2.0)];
    assert!(idx.group_deltas(&deltas).is_empty());
    let none: Vec<(usize, f64)> = Vec::new();
    assert!(idx.group_deltas(&none).is_empty());
}

#[test]
fn replace_entity_repoints_its_variables_only() {
    let mut idx = index();
    idx.replace_entity(10, 30);
    assert_eq!(fact_of(&idx, 0), Some(30));
    assert_eq!(fact_of(&idx, 1), Some(30));
    assert_eq!(field_of(&idx, 1), Some("b".to_string()));
    assert_eq!(fact_of(&idx, 2), Some(20));
    // the list moved with the fact: replacing the new id again follows it
    idx.replace_entity(30, 40);
    assert_eq!(fact_of(&idx, 0), Some(40));
    assert_eq!(fact_of(&idx, 1), Some(40));
    // the old id is gone from the reverse index
    idx.replace_entity(10, 50);
    assert_eq!(fact_of(&idx, 0), Some(40));
}

#[test]
fn replace_unknown_entity_changes_nothing() {
    let mut idx = index();
    idx.replace_entity(99, 100);
    assert_eq!(fact_of(&idx, 0), Some(10));
    assert_eq!(fact_of(&idx, 2), Some(20));
}

#[test]
fn commit_replacements_renames_each_fact() {
    let mut idx = index();
    idx.commit_replacements(&vec![(10, 11), (20, 21)]);
    assert_eq!(fact_of(&idx, 0), Some(11));
    assert_eq!(fact_of(&idx, 1), Some(11));
    assert_eq!(fact_of(&idx, 2), Some(21));
    assert_eq!(field_of(&idx, 2), Some("a".to_string()));
}

#[test]
fn rebuild_after_editing_variables() {
    let mut idx = index();
    idx.var_idx_to_entity_map.insert(3, (20, "c".to_string()));
    idx.rebuild_reverse_index();
    idx.replace_entity(20, 22);
    assert_eq!(fact_of(&idx, 2), Some(22));
    assert_eq!(fact_of(&idx, 3), Some(22));
    assert_eq!(fact_of(&idx, 0), Some(10));
}
