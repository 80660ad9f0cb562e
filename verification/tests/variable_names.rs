use greyjack::columns::get_df_column_name;
use greyjack::variable_names::{build_variables_info, EntityAttribute, EntityGroup};

fn attr(name: &str, is_variable: bool) -> EntityAttribute {
    EntityAttribute { name: name.to_string(), is_variable }
}

fn groups() -> Vec<EntityGroup> {
    vec![
        EntityGroup {
            name: "tasks".to_string(),
            entities: vec![
                vec![attr("id", false), attr("start", true), attr("machine", true)],
                vec![attr("id", false), attr("start", true), attr("machine", true)],
            ],
        },
        EntityGroup { name: "shifts".to_string(), entities: vec![vec![attr("worker", true)]] },
        EntityGroup { name: "empty".to_string(), entities: Vec::new() },
    ]
}

#[test]
fn variables_are_numbered_in_order() {
    let vars = build_variables_info(&groups());
    let names: Vec<String> = vars.iter().map(|v| v.0.clone()).collect();
    assert_eq!(
        names,
        vec![
            "tasks: 0-->start".to_string(),
            "tasks: 1-->machine".to_string(),
            "tasks: 2-->start".to_string(),
            "tasks: 3-->machine".to_string(),
            "shifts: 4-->worker".to_string(),
        ]
    );
    let slots: Vec<(usize, usize, usize)> = vars.iter().map(|v| v.1).collect();
    assert_eq!(slots, vec![(0, 0, 1), (0, 0, 2), (0, 1, 1), (0, 1, 2), (1, 0, 0)]);
}

#[test]
fn fixed_attributes_are_no_variables() {
    let gs = vec![EntityGroup { name: "g".to_string(), entities: vec![vec![attr("a", false)]] }];
    assert!(build_variables_info(&gs).is_empty());
}

#[test]
fn names_read_back_to_group_and_attribute() {
    for (name, (g, _e, a)) in build_variables_info(&groups()) {
        let (df, col) = get_df_column_name(name);
        assert_eq!(df, groups()[g].name);
        assert_eq!(col, groups()[g].entities[0][a].name);
    }
}

#[test]
fn large_numbers_are_written_in_decimal() {
    let many: Vec<Vec<EntityAttribute>> = (0..12).map(|_| vec![attr("x", true)]).collect();
    let vars = build_variables_info(&vec![EntityGroup { name: "g".to_string(), entities: many }]);
    assert_eq!(vars[11].0, "g: 11-->x");
}

#[test]
fn variable_id_of_finds_each_variable_by_name() {
    let vars = build_variables_info(&groups());
    for (i, v) in vars.iter().enumerate() {
        assert_eq!(greyjack::variable_names::variable_id_of(&vars, &v.0), Some(i));
    }
    assert_eq!(greyjack::variable_names::variable_id_of(&vars, &"nope".to_string()), None);
}

#[test]
fn entity_index_from_groups_pairs_variables_with_facts() {
    let g = groups();
    let fact_ids: Vec<Vec<i64>> = g.iter().map(|grp| (0..grp.entities.len()).map(|e| 100 * (e as i64 + 1)).collect()).collect();
    let idx = greyjack::entity_index::EntityIndex::from_groups(&g, &fact_ids);
    let vars = build_variables_info(&g);
    assert_eq!(idx.var_idx_to_entity_map.len(), vars.len());
    for (i, (_, slot)) in vars.iter().enumerate() {
        let (fact, field) = idx.var_idx_to_entity_map.get(&i).unwrap();
        assert_eq!(*fact, fact_ids[slot.0][slot.1]);
        assert_eq!(*field, g[slot.0].entities[slot.1][slot.2].name);
    }
}
