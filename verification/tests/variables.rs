use greyjack::random::create_rng;
use greyjack::variables::{build_semantic_groups_dict, resolve_semantic_groups, PlanningVariableInfo, SemanticGroups, VariablesLayout};

fn var(name: &str, groups: &[&str], frozen: bool, is_integer: bool) -> PlanningVariableInfo {
    PlanningVariableInfo {
        name: name.to_string(),
        semantic_groups: groups.iter().map(|g| g.to_string()).collect(),
        frozen,
        is_integer,
    }
}

#[test]
fn groups_follow_first_appearance() {
    let vars = vec![
        var("a", &["x", "y"], false, false),
        var("b", &["y"], false, true),
        var("c", &["x", "z"], true, false),
        var("d", &["z", "x"], false, true),
    ];
    let groups = build_semantic_groups_dict(&vars);
    assert_eq!(groups.semantic_group_keys, vec!["x".to_string(), "y".to_string(), "z".to_string()]);
    assert_eq!(groups.semantic_groups_ids, vec![vec![0, 3], vec![0, 1], vec![3]]);
}

#[test]
fn frozen_variables_join_no_group() {
    let vars = vec![var("a", &["common"], true, false), var("b", &["common"], true, false)];
    let groups = build_semantic_groups_dict(&vars);
    assert!(groups.semantic_group_keys.is_empty());
    assert!(groups.semantic_groups_ids.is_empty());
}

#[test]
fn a_repeated_group_name_lists_the_variable_twice() {
    let vars = vec![var("a", &["g", "g"], false, false)];
    let groups = build_semantic_groups_dict(&vars);
    assert_eq!(groups.semantic_groups_ids, vec![vec![0, 0]]);
}

#[test]
fn layout_counts_ids_and_integers() {
    let vars = vec![
        var("a", &["common"], false, false),
        var("b", &["common"], false, true),
        var("c", &["other"], false, true),
    ];
    let layout = VariablesLayout::new(vars);
    assert_eq!(layout.variables_count, 3);
    assert_eq!(layout.variable_ids, vec![0, 1, 2]);
    assert_eq!(layout.n_semantic_groups, 2);
    assert_eq!(layout.discrete_ids, Some(vec![1, 2]));
    assert_eq!(layout.get_variables_names_vec(), vec!["a".to_string(), "b".to_string(), "c".to_string()]);
}

#[test]
fn layout_without_integers_has_no_discrete_ids() {
    let layout = VariablesLayout::new(vec![var("a", &["common"], false, false)]);
    assert_eq!(layout.discrete_ids, None);
}

#[test]
fn missing_groups_default_to_common() {
    assert_eq!(resolve_semantic_groups(None), vec!["common".to_string()]);
    assert_eq!(resolve_semantic_groups(Some(vec!["a".to_string()])), vec!["a".to_string()]);
}

#[test]
fn random_group_is_in_range() {
    let groups = SemanticGroups {
        semantic_group_keys: vec!["a".to_string(), "b".to_string(), "c".to_string()],
        semantic_groups_ids: vec![vec![0], vec![1], vec![2]],
    };
    let mut rng = create_rng();
    for _ in 0..50 {
        assert!(groups.get_random_semantic_group_ids(&mut rng) < 3);
    }
}
