use lead_reconcile::classify::{delete_keyword_data, multiple_search_keyword, search_keyword, unique_search_keyword};

fn table(rows: &[&[&str]]) -> Vec<Vec<String>> {
    rows.iter().map(|r| r.iter().map(|f| f.to_string()).collect()).collect()
}

fn words(ws: &[&str]) -> Vec<String> {
    ws.iter().map(|w| w.to_string()).collect()
}

#[test]
fn search_keeps_rows_containing_a_keyword() {
    let rows = table(&[&["1", "旅游设计规划有限公司"], &["2", "软件开发"], &["3", "景区策划"], &["4"]]);
    let out = search_keyword(&words(&["景区策划", "设计规划"]), &rows, 1);
    assert_eq!(out, table(&[&["1", "旅游设计规划有限公司"], &["3", "景区策划"]]));
}

#[test]
fn search_without_keywords_finds_nothing() {
    let rows = table(&[&["1", "abc"]]);
    assert!(search_keyword(&Vec::new(), &rows, 1).is_empty());
}

#[test]
fn delete_keeps_rows_without_keywords() {
    let rows = table(&[&["1", "旅行社"], &["2", "文旅规划"], &["3", "船舶公司"], &["4"]]);
    let out = delete_keyword_data(&words(&["旅行社", "船舶"]), &rows, 1);
    assert_eq!(out, table(&[&["2", "文旅规划"]]));
}

#[test]
fn multiple_search_tries_each_column() {
    let rows = table(&[&["1", "none", "景区管理"], &["2", "景区运营", "x"], &["3", "a", "b"], &["4", "c"]]);
    let out = multiple_search_keyword(&words(&["景区"]), &rows, &vec![1, 2]);
    assert_eq!(out, table(&[&["1", "none", "景区管理"], &["2", "景区运营", "x"]]));
}

#[test]
fn multiple_search_passes_over_missing_columns() {
    let rows = table(&[&["1", "hit"], &["2"]]);
    let out = multiple_search_keyword(&words(&["hit"]), &rows, &vec![5, 1]);
    assert_eq!(out, table(&[&["1", "hit"]]));
}

#[test]
fn exhaustive_partition_gives_each_row_to_the_first_group() {
    let rows = table(&[&["1", "A"], &["2", "AB"], &["3", "B"]]);
    let groups = vec![words(&["A"]), words(&["B"])];
    let out = unique_search_keyword(&groups, &rows, 0, 1);
    assert_eq!(out[0], table(&[&["1", "A"], &["2", "AB"]]));
    assert_eq!(out[1], table(&[&["3", "B"]]));
    let total: usize = out.iter().map(|g| g.len()).sum();
    assert_eq!(total, rows.len());
}

#[test]
fn exhaustive_partition_leaves_unmatched_rows_out() {
    let rows = table(&[&["1", "A"], &["2", "C"], &["3", "B"]]);
    let groups = vec![words(&["A"]), words(&["B"])];
    let out = unique_search_keyword(&groups, &rows, 0, 1);
    let total: usize = out.iter().map(|g| g.len()).sum();
    assert!(total < rows.len());
    assert_eq!(total, 2);
}

#[test]
fn exhaustive_partition_indexes_rows_by_identity() {
    let rows = table(&[&["1", "A old"], &["1", "B new"], &["2", "A"]]);
    let groups = vec![words(&["A"]), words(&["B"])];
    let out = unique_search_keyword(&groups, &rows, 0, 1);
    assert_eq!(out[0], table(&[&["2", "A"]]));
    assert_eq!(out[1], table(&[&["1", "B new"]]));
}
