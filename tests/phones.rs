use lead_reconcile::phone::{combine_phone, consolidate_contacts, mobile_first, split_tokens};

fn table(rows: &[&[&str]]) -> Vec<Vec<String>> {
    rows.iter().map(|r| r.iter().map(|f| f.to_string()).collect()).collect()
}

#[test]
fn consolidation_puts_mobile_before_landline() {
    assert_eq!(consolidate_contacts("12345678901;", "055512345;"), "12345678901;055512345;");
}

#[test]
fn consolidation_moves_mobile_from_second_field_first() {
    assert_eq!(consolidate_contacts("055512345;", "12345678901;"), "12345678901;055512345;");
}

#[test]
fn consolidation_is_idempotent() {
    let once = consolidate_contacts("0101;13800000000;0101;", "13900000000;0202;13800000000");
    assert_eq!(once, "13800000000;13900000000;0101;0202;");
    assert_eq!(consolidate_contacts(&once, ""), once);
}

#[test]
fn consolidation_of_empty_fields() {
    assert_eq!(consolidate_contacts("", ""), "");
    assert_eq!(consolidate_contacts(";;", ";"), "");
}

#[test]
fn mobile_needs_exactly_eleven_digits_starting_with_one() {
    assert_eq!(mobile_first("0555;212345678901;1234567890;"), "0555;212345678901;1234567890;");
    assert_eq!(mobile_first("0555;1234567890a;23456789012;12345678901"), "12345678901;0555;1234567890a;23456789012;");
}

#[test]
fn mobile_first_keeps_relative_orders() {
    assert_eq!(
        mobile_first("021;13800000002;022;13800000001;"),
        "13800000002;13800000001;021;022;"
    );
}

#[test]
fn mobile_first_keeps_non_ascii_tokens() {
    assert_eq!(mobile_first("电话0101;13800000000;"), "13800000000;电话0101;");
}

#[test]
fn split_drops_empty_tokens() {
    assert_eq!(split_tokens(";a;;bc;"), vec!["a".to_string(), "bc".to_string()]);
    assert!(split_tokens("").is_empty());
}

#[test]
fn combine_phone_merges_into_kept_column() {
    let rows = table(&[
        &["s", "n", "13800000000;0101;", "0101;13900000000;"],
        &["s", "short"],
    ]);
    let out = combine_phone(&rows, 3, 2, 0, "second");
    assert_eq!(out, table(&[&["second", "n", "", "13900000000;13800000000;0101;"]]));
}
