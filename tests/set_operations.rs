use lead_reconcile::error::ReconcileError;
use lead_reconcile::index::build_index;
use lead_reconcile::setops::{file_complementary_set, multiple_file_intersection, multiple_file_union};

fn table(rows: &[&[&str]]) -> Vec<Vec<String>> {
    rows.iter().map(|r| r.iter().map(|f| f.to_string()).collect()).collect()
}

fn keys(rows: &[Vec<String>], col: usize) -> Vec<String> {
    let mut k: Vec<String> = rows.iter().map(|r| r[col].clone()).collect();
    k.sort();
    k
}

#[test]
fn index_keeps_last_row_of_each_key_in_first_order() {
    let rows = table(&[&["a", "1"], &["b", "2"], &["a", "3"], &["c"]]);
    let idx = build_index(&rows, 1);
    assert_eq!(idx, table(&[&["a", "1"], &["b", "2"], &["a", "3"]]));
    let idx = build_index(&rows, 0);
    assert_eq!(idx, table(&[&["a", "3"], &["b", "2"], &["c"]]));
}

#[test]
fn index_skips_rows_without_the_column() {
    let rows = table(&[&["a"], &["b", "x"], &[]]);
    assert_eq!(build_index(&rows, 1), table(&[&["b", "x"]]));
}

#[test]
fn complement_removes_subtracted_keys() {
    let base = table(&[&["a", "1"], &["b", "2"], &["c", "3"]]);
    let sub = table(&[&["b", "9"], &["z", "0"]]);
    assert_eq!(file_complementary_set(&sub, &base, 0), table(&[&["a", "1"], &["c", "3"]]));
}

#[test]
fn complement_keeps_last_row_of_duplicate_key() {
    let base = table(&[&["a", "1"], &["a", "2"], &["b", "3"]]);
    let sub = table(&[&["b", "x"]]);
    assert_eq!(file_complementary_set(&sub, &base, 0), table(&[&["a", "2"]]));
}

#[test]
fn complement_with_empty_subtract_is_the_index() {
    let base = table(&[&["a", "1"], &["b", "2"]]);
    assert_eq!(file_complementary_set(&Vec::new(), &base, 0), base);
}

#[test]
fn complement_restores_base_keys_with_common_rows() {
    let base = table(&[&["a", "1"], &["b", "2"], &["c", "3"], &["d", "4"]]);
    let sub = table(&[&["b", "x"], &["d", "y"], &["e", "z"]]);
    let c = file_complementary_set(&sub, &base, 0);
    let mut back = keys(&c, 0);
    for k in ["b", "d"] {
        back.push(k.to_string());
    }
    back.sort();
    assert_eq!(back, keys(&base, 0));
}

#[test]
fn complement_twice_changes_nothing() {
    let base = table(&[&["a", "1"], &["b", "2"], &["c", "3"]]);
    let sub = table(&[&["a", "x"]]);
    let once = file_complementary_set(&sub, &base, 0);
    let twice = file_complementary_set(&sub, &once, 0);
    assert_eq!(once, twice);
}

#[test]
fn union_of_a_source_with_itself() {
    let a = table(&[&["x", "1"], &["y", "2"], &["z", "3"]]);
    let out = multiple_file_union(&vec![a.clone(), a.clone()], 0).unwrap();
    assert_eq!(out.total, 3);
    assert_eq!(out.new, 0);
    assert_eq!(out.rows, a);
}

#[test]
fn union_keeps_first_row_and_counts_new_keys() {
    let a = table(&[&["x", "a1"], &["y", "a2"]]);
    let b = table(&[&["y", "b1"], &["z", "b2"], &["w", "b3"], &["z", "b4"]]);
    let out = multiple_file_union(&vec![a, b], 0).unwrap();
    assert_eq!(out.rows, table(&[&["x", "a1"], &["y", "a2"], &["z", "b2"], &["w", "b3"]]));
    assert_eq!(out.total, 4);
    assert_eq!(out.new, 2);
}

#[test]
fn union_counts_new_keys_of_the_second_source_only() {
    let a = table(&[&["x"]]);
    let b = table(&[&["y"]]);
    let c = table(&[&["z"], &["y"]]);
    let out = multiple_file_union(&vec![a, b, c], 0).unwrap();
    assert_eq!(out.rows, table(&[&["x"], &["y"], &["z"]]));
    assert_eq!(out.new, 1);
}

#[test]
fn union_of_one_source_deduplicates_it() {
    let a = table(&[&["x", "1"], &["x", "2"]]);
    let out = multiple_file_union(&vec![a], 0).unwrap();
    assert_eq!(out.rows, table(&[&["x", "1"]]));
    assert_eq!(out.new, 0);
}

#[test]
fn union_never_shrinks_when_a_source_is_added() {
    let a = table(&[&["x"], &["y"], &["x"]]);
    let b = table(&[&["y"], &["z"]]);
    let one = multiple_file_union(&vec![a.clone()], 0).unwrap();
    let two = multiple_file_union(&vec![a.clone(), b.clone()], 0).unwrap();
    assert!(two.total >= one.total);
    assert_eq!(one.total, 2);
    assert_eq!(two.total, 3);
    assert!(two.total <= a.len() + b.len());
}

#[test]
fn union_without_sources_fails() {
    assert!(matches!(multiple_file_union(&Vec::new(), 0), Err(ReconcileError::NoSources)));
}

#[test]
fn intersection_key_sets_do_not_depend_on_order() {
    let a = table(&[&["x", "a"], &["y", "a"], &["z", "a"]]);
    let b = table(&[&["z", "b"], &["w", "b"], &["x", "b"]]);
    let ab = multiple_file_intersection(&vec![a.clone(), b.clone()], 0).unwrap();
    let ba = multiple_file_intersection(&vec![b, a], 0).unwrap();
    assert_eq!(keys(&ab, 0), vec!["x".to_string(), "z".to_string()]);
    assert_eq!(keys(&ab, 0), keys(&ba, 0));
}

#[test]
fn intersection_rows_come_from_the_last_source() {
    let a = table(&[&["x", "a"], &["y", "a"]]);
    let b = table(&[&["y", "b1"], &["q", "b"], &["y", "b2"]]);
    let out = multiple_file_intersection(&vec![a, b], 0).unwrap();
    assert_eq!(out, table(&[&["y", "b2"]]));
}

#[test]
fn intersection_of_one_source_is_that_source() {
    let a = table(&[&["x", "1"], &["y", "2"]]);
    assert_eq!(multiple_file_intersection(&vec![a.clone()], 0).unwrap(), a);
}

#[test]
fn intersection_of_three_sources() {
    let a = table(&[&["x"], &["y"], &["z"]]);
    let b = table(&[&["y"], &["z"]]);
    let c = table(&[&["z"], &["x"]]);
    assert_eq!(multiple_file_intersection(&vec![a, b, c], 0).unwrap(), table(&[&["z"]]));
}

#[test]
fn intersection_stops_when_nothing_is_common() {
    let a = table(&[&["x"]]);
    let b = table(&[&["y"]]);
    let c = table(&[&["x"], &["y"]]);
    assert!(multiple_file_intersection(&vec![a, b, c], 0).unwrap().is_empty());
}

#[test]
fn intersection_without_sources_fails() {
    assert!(matches!(multiple_file_intersection(&Vec::new(), 0), Err(ReconcileError::NoSources)));
}
