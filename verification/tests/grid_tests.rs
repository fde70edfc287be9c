use table_codec::grid::{
    apply_merges, grid_max_cols, rectangularize, split_header_rows, MERGE_ROW_LIMIT,
};

fn s(x: &str) -> String {
    x.to_string()
}

fn grid(cells: &[&[&str]]) -> Vec<Vec<String>> {
    cells.iter().map(|r| r.iter().map(|c| s(c)).collect()).collect()
}

#[test]
fn split_takes_the_first_row_as_header() {
    let g = grid(&[&["A", "B"], &["1", "2"], &["3", "4"]]);
    let (cols, rows) = split_header_rows(g);
    assert_eq!(cols, vec![s("A"), s("B")]);
    assert_eq!(rows, grid(&[&["1", "2"], &["3", "4"]]));
}

#[test]
fn split_of_nothing_is_nothing() {
    let (cols, rows) = split_header_rows(Vec::new());
    assert!(cols.is_empty());
    assert!(rows.is_empty());
}

#[test]
fn rectangularize_pads_to_the_widest_row() {
    let mut g = grid(&[&["a"], &["b", "c", "d"], &[]]);
    rectangularize(&mut g);
    assert_eq!(grid_max_cols(&g), 3);
    assert_eq!(g, grid(&[&["a", "", ""], &["b", "c", "d"], &["", "", ""]]));
}

#[test]
fn merge_clears_covered_cells_but_never_the_origin() {
    let mut g = grid(&[&["X", "b", "c"], &["d", "e", "f"], &["g", "h", "i"]]);
    apply_merges(&mut g, &vec![(0, 0, 1, 1)]);
    assert_eq!(g, grid(&[&["X", "", "c"], &["", "", "f"], &["g", "h", "i"]]));
}

#[test]
fn merge_widens_short_rows_to_reach_the_region() {
    let mut g = grid(&[&["X"], &[]]);
    apply_merges(&mut g, &vec![(0, 0, 1, 2)]);
    assert_eq!(g, grid(&[&["X", "", ""], &["", "", ""]]));
}

#[test]
fn merge_beyond_the_grid_changes_nothing() {
    let mut g = grid(&[&["a", "b"]]);
    apply_merges(&mut g, &vec![(5, 0, 6, 1)]);
    assert_eq!(g, grid(&[&["a", "b"]]));
}

#[test]
fn merge_pass_is_skipped_at_the_row_limit() {
    let mut g: Vec<Vec<String>> = (0..MERGE_ROW_LIMIT).map(|i| vec![format!("r{}", i)]).collect();
    let before = g.clone();
    apply_merges(&mut g, &vec![(0, 0, 1, 1)]);
    assert_eq!(g, before);
}

#[test]
fn merge_pass_runs_just_below_the_row_limit() {
    let mut g: Vec<Vec<String>> = (0..MERGE_ROW_LIMIT - 1).map(|i| vec![format!("r{}", i)]).collect();
    apply_merges(&mut g, &vec![(0, 0, 1, 0)]);
    assert_eq!(g[0], vec![s("r0")]);
    assert_eq!(g[1], vec![s("")]);
    assert_eq!(g[2], vec![s("r2")]);
}

#[test]
fn reversed_merge_region_changes_nothing() {
    let mut g = grid(&[&["a", "b", "c"], &["d", "e", "f"], &["g", "h", "i"]]);
    let before = g.clone();
    apply_merges(&mut g, &vec![(2, 2, 0, 0)]);
    assert_eq!(g, before);
}
