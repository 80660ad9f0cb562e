use greyjack::columns::{get_df_column_name, ColumnLayout};

fn names(list: &[&str]) -> Vec<String> {
    list.iter().map(|s| s.to_string()).collect()
}

#[test]
fn df_column_name_splits_at_separators() {
    assert_eq!(get_df_column_name("tasks: 3-->start".to_string()), ("tasks".to_string(), "start".to_string()));
    assert_eq!(get_df_column_name("a: b: 1-->x-->y".to_string()), ("a".to_string(), "y".to_string()));
}

#[test]
fn df_column_name_without_separators_is_whole_name() {
    assert_eq!(get_df_column_name("plain".to_string()), ("plain".to_string(), "plain".to_string()));
    assert_eq!(get_df_column_name("".to_string()), ("".to_string(), "".to_string()));
}

#[test]
fn df_column_name_handles_unicode() {
    assert_eq!(get_df_column_name("zäh: 0-->größe".to_string()), ("zäh".to_string(), "größe".to_string()));
}

fn layout() -> ColumnLayout {
    ColumnLayout::new(&names(&[
        "tasks: 0-->start",
        "tasks: 0-->machine",
        "tasks: 1-->start",
        "tasks: 1-->machine",
        "shifts: 2-->worker",
    ]))
}

#[test]
fn layout_groups_variables_by_column() {
    let l = layout();
    assert_eq!(l.var_id_to_df_name, names(&["tasks", "tasks", "tasks", "tasks", "shifts"]));
    assert_eq!(l.var_id_to_col_name, names(&["start", "machine", "start", "machine", "worker"]));
    let map: Vec<(String, String, Vec<usize>)> = l.df_column_to_var_ids_map.clone();
    assert_eq!(
        map,
        vec![
            ("tasks".to_string(), "start".to_string(), vec![0, 2]),
            ("tasks".to_string(), "machine".to_string(), vec![1, 3]),
            ("shifts".to_string(), "worker".to_string(), vec![4]),
        ]
    );
}

#[test]
fn index_map_counts_rows_per_column() {
    let l = layout();
    let rows: Vec<usize> = l.build_var_id_to_df_column_index_map().iter().map(|e| e.2).collect();
    assert_eq!(rows, vec![0, 0, 1, 1, 0]);
}

#[test]
fn group_data_map_fills_columns_sample_by_sample() {
    let mut l = layout();
    let samples = vec![vec![10, 11, 12, 13, 14], vec![20, 21, 22, 23, 24]];
    let tables = l.build_group_data_map(&samples, false);
    assert_eq!(tables.len(), 2);
    assert_eq!(tables[0].df_name, "tasks");
    assert_eq!(tables[0].columns[0], ("start".to_string(), vec![10, 12, 20, 22]));
    assert_eq!(tables[0].columns[1], ("machine".to_string(), vec![11, 13, 21, 23]));
    assert_eq!(tables[1].df_name, "shifts");
    assert_eq!(tables[1].columns[0], ("worker".to_string(), vec![14, 24]));
    assert!(tables.iter().all(|t| t.sample_ids.is_none()));
}

#[test]
fn group_data_map_builds_and_reuses_sample_ids() {
    let mut l = layout();
    let samples = vec![vec![1, 2, 3, 4, 5], vec![6, 7, 8, 9, 10], vec![0, 0, 0, 0, 0]];
    let first = l.build_group_data_map(&samples, true);
    assert_eq!(first[0].sample_ids, Some(vec![0, 0, 1, 1, 2, 2]));
    assert_eq!(first[1].sample_ids, Some(vec![0, 1, 2]));
    assert_eq!(l.cached_sample_size, 3);
    let second = l.build_group_data_map(&samples, true);
    assert_eq!(second[0].sample_ids, Some(vec![0, 0, 1, 1, 2, 2]));
    assert_eq!(second[1].sample_ids, Some(vec![0, 1, 2]));
    let one = l.build_group_data_map(&vec![vec![1, 2, 3, 4, 5]], true);
    assert_eq!(one[0].sample_ids, Some(vec![0, 0]));
    assert_eq!(l.cached_sample_size, 1);
}

#[test]
fn delta_tables_apply_changes_to_rows() {
    let mut l = layout();
    let group = l.build_group_data_map(&vec![vec![10, 11, 12, 13, 14]], false);
    let deltas = vec![vec![(2usize, 99)], vec![(4usize, 7), (1usize, 55)]];
    let dts = l.build_delta_dfs(&group, &deltas);
    assert_eq!(dts.len(), 2);
    assert_eq!(dts[0].df_name, "tasks");
    assert_eq!(dts[0].sample_ids, vec![0, 1]);
    assert_eq!(dts[0].row_ids, vec![1, 0]);
    assert_eq!(dts[0].columns[0], ("start".to_string(), vec![99, 10]));
    assert_eq!(dts[0].columns[1], ("machine".to_string(), vec![13, 55]));
    assert_eq!(dts[1].df_name, "shifts");
    assert_eq!(dts[1].sample_ids, vec![1]);
    assert_eq!(dts[1].row_ids, vec![0]);
    assert_eq!(dts[1].columns[0], ("worker".to_string(), vec![7]));
}

#[test]
fn no_deltas_give_no_tables() {
    let mut l = layout();
    let group = l.build_group_data_map(&vec![vec![1, 2, 3, 4, 5]], false);
    assert!(l.build_delta_dfs(&group, &vec![Vec::<(usize, i32)>::new()]).is_empty());
}

#[test]
fn delta_tables_sort_rows_by_sample_then_row() {
    let mut l = layout();
    let group = l.build_group_data_map(&vec![vec![10, 11, 12, 13, 14]], false);
    let deltas = vec![vec![(3usize, 8), (0usize, 5)], vec![(2usize, 6), (1usize, 4)]];
    let dts = l.build_delta_dfs(&group, &deltas);
    assert_eq!(dts.len(), 1);
    assert_eq!(dts[0].sample_ids, vec![0, 0, 1, 1]);
    assert_eq!(dts[0].row_ids, vec![0, 1, 0, 1]);
    assert_eq!(dts[0].columns[0], ("start".to_string(), vec![5, 12, 10, 6]));
    assert_eq!(dts[0].columns[1], ("machine".to_string(), vec![11, 8, 4, 13]));
}
