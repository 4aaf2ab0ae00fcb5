use lead_reconcile::error::ReconcileError;
use lead_reconcile::merge::{combine_data_from_differen_source, same_format_combine_data};

fn table(rows: &[&[&str]]) -> Vec<Vec<String>> {
    rows.iter().map(|r| r.iter().map(|f| f.to_string()).collect()).collect()
}

#[test]
fn adjacent_runs_merge_contacts_and_flush_the_last_run() {
    let rows = table(&[
        &["s", "acme", "x", "111", "555"],
        &["s", "acme", "y", "", "666"],
        &["s", "beta", "z", "222", ""],
        &["s", "beta", "w", "333", "777"],
    ]);
    let out = same_format_combine_data(&rows, 1, 3, 4);
    assert_eq!(
        out,
        table(&[&["s", "acme", "x", "111;", "555;666;"], &["s", "beta", "z", "222;333;", "777;"]])
    );
}

#[test]
fn adjacent_runs_only_join_neighbours() {
    let rows = table(&[&["a", "1", "p"], &["b", "2", "q"], &["a", "3", "r"]]);
    let out = same_format_combine_data(&rows, 0, 1, 2);
    assert_eq!(out, table(&[&["a", "1;", "p;"], &["b", "2;", "q;"], &["a", "3;", "r;"]]));
}

#[test]
fn adjacent_runs_skip_short_rows() {
    let rows = table(&[&["a", "1", "p"], &["a"], &["a", "2", "q"]]);
    let out = same_format_combine_data(&rows, 0, 1, 2);
    assert_eq!(out, table(&[&["a", "1;2;", "p;q;"]]));
}

#[test]
fn adjacent_runs_of_nothing() {
    assert!(same_format_combine_data(&Vec::new(), 0, 1, 2).is_empty());
}

#[test]
fn cross_source_merge_overwrites_contact_and_tags_provenance() {
    let a = table(&[&["x", "p1"]]);
    let b = table(&[&["x", "p2"]]);
    let out = combine_data_from_differen_source(&vec![a, b], 0, 1, 0, "A;B").unwrap();
    assert_eq!(out.rows, table(&[&["A;B", "p2"]]));
    assert_eq!(out.total, 1);
    assert_eq!(out.from_later, 1);
    assert_eq!(out.unique_later, 0);
    assert!(!out.rows.iter().any(|r| r[0] == "x"));
}

#[test]
fn cross_source_merge_counts_and_leftovers() {
    let a = table(&[&["src", "x", "a-x"], &["src", "y", "a-y"]]);
    let b = table(&[&["src", "y", "b-y"], &["src", "z", "b-z"], &["src", "w", "b-w"], &["src", "z", "b-z2"]]);
    let out = combine_data_from_differen_source(&vec![a, b], 1, 2, 0, "both").unwrap();
    assert_eq!(
        out.rows,
        table(&[
            &["both", "y", "b-y"],
            &["both", "z", "b-z2"],
            &["src", "x", "a-x"],
            &["src", "w", "b-w"],
        ])
    );
    assert_eq!(out.total, 4);
    assert_eq!(out.from_later, 4);
    assert_eq!(out.unique_later, 2);
}

#[test]
fn cross_source_merge_first_source_is_last_wins() {
    let a = table(&[&["s", "x", "old"], &["s", "x", "new"]]);
    let out = combine_data_from_differen_source(&vec![a], 1, 2, 0, "l").unwrap();
    assert_eq!(out.rows, table(&[&["s", "x", "new"]]));
    assert_eq!(out.from_later, 0);
}

#[test]
fn cross_source_merge_without_sources_fails() {
    assert!(matches!(
        combine_data_from_differen_source(&Vec::new(), 0, 1, 0, "l"),
        Err(ReconcileError::NoSources)
    ));
}
